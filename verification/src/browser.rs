//! The viewer's browsing state: what is being browsed, what is on screen, what
//! has been trashed, and how the keys change it.

use crate::archive::Item;
use crate::path::{normal, normal_form, same, same_path};
use crate::positions::Positions;
use crate::scan::{
    arrange, arranged, is_sorted_list, item_order, order_items, position_key, sort_keys,
    sorting_keeps_counts, sorting_keeps_items, video_key, ScanResult,
};
use crate::natural::{continuation_comes_after, natural_rank, Rank};
use crate::sort::{
    index_ints, is_natural_order, natural_order_exists, natural_order_is_permutation,
    sorted_order_is,
};
use crate::text::{decimal, lower, push_decimal};
use crate::video::{fresh_player, is_video_file, video_path, Clock, VideoPlayer};
use crate::window::{
    circular_dist, distance_is_the_shorter_way, places, ring_distance, window, window_covers_reach,
    window_indices,
};
use std::collections::HashSet;
use std::sync::Arc;
use vstd::hash_set::StringHashSet;
use vstd::prelude::*;

verus! {

broadcast use vstd::std_specs::hash::group_hash_axioms;

// How close (in browse-list slots) the current item must get to an unexpanded
// archive or PDF before it is read: close enough never to download a container
// that the viewer isn't approaching, with a little look-ahead.
pub const EXPAND_AHEAD: usize = 3;

pub const EXPAND_BEHIND: usize = 1;

/// How far from the current item decoded textures are kept.
pub const CACHE_REACH: usize = 4;

/// A video is resumed only past its first second.
pub const RESUME_AFTER_MS: u64 = 1000;

/// What the background workers see of the view: the item on screen, and how many
/// items there are.
#[derive(Clone, Copy, PartialEq, Eq, Structural, Debug)]
pub struct Shared {
    pub current_idx: usize,
    pub image_count: usize,
}

/// The browsing state.
pub struct BrowserModel {
    pub items: Seq<Item>,
    pub root: Seq<char>,
    pub current: usize,
    pub deleted: Set<usize>,
    pub expanding: Set<Seq<char>>,
    pub titled: Option<usize>,
    pub rotation: u8,
    pub video: Option<(usize, VideoPlayer)>,
    pub video_error: Option<Seq<char>>,
    pub positions: Map<(Seq<char>, Seq<char>), u64>,
    pub fullscreen: bool,
    pub scanning: bool,
    pub shared: Shared,
}

/// The place `k` steps from `start` in a ring of `n` places.
pub open spec fn place_at(start: int, forward: bool, k: int, n: int) -> int {
    if forward {
        (start + k) % n
    } else {
        (start - k) % n
    }
}

/// The first place from `k` steps away on that is not deleted.
pub open spec fn first_kept(
    deleted: Set<usize>,
    start: int,
    forward: bool,
    k: int,
    n: int,
) -> Option<usize>
    decreases n + 1 - k,
{
    if k > n {
        None
    } else if !deleted.contains(place_at(start, forward, k, n) as usize) {
        Some(place_at(start, forward, k, n) as usize)
    } else {
        first_kept(deleted, start, forward, k + 1, n)
    }
}

/// Whether an item is the placeholder of the archive or PDF at `path`.
pub open spec fn is_placeholder(item: Item, path: Seq<char>) -> bool {
    item matches Item::Container { path: p } && same(p@, path)
}

/// The items other than the placeholder of `path`.
pub open spec fn without_placeholder(items: Seq<Item>, path: Seq<char>) -> Seq<Item>
    decreases items.len(),
{
    if items.len() == 0 {
        Seq::empty()
    } else {
        let before = without_placeholder(items.drop_last(), path);
        if is_placeholder(items.last(), path) {
            before
        } else {
            before.push(items.last())
        }
    }
}

/// The items once the archive or PDF at `path` has been read, before they are
/// sorted: its entries come after the others, in place of its placeholder.
pub open spec fn opened_list(old: Seq<Item>, path: Seq<char>, entries: Seq<Item>) -> Seq<Item> {
    without_placeholder(old, path) + entries
}

/// The items once the archive or PDF at `path` has been read.
pub open spec fn expanded_list(old: Seq<Item>, path: Seq<char>, entries: Seq<Item>) -> Seq<Item> {
    arranged(opened_list(old, path, entries), item_order(opened_list(old, path, entries)))
}

/// The place of item `i` among the items other than the placeholder of `path`.
pub open spec fn place_among_others(old: Seq<Item>, path: Seq<char>, i: int) -> int {
    without_placeholder(old.take(i), path).len() as int
}

/// The first item backed by the file at `path`.
pub open spec fn index_of_disk(items: Seq<Item>, path: Seq<char>) -> Option<usize>
    decreases items.len(),
{
    if items.len() == 0 {
        None
    } else {
        match index_of_disk(items.drop_last(), path) {
            Some(i) => Some(i),
            None => if same(items.last().disk(), path) {
                Some((items.len() - 1) as usize)
            } else {
                None
            },
        }
    }
}

/// Where item `i` of `old` stands once the archive or PDF at `path` has been read:
/// where sorting puts that very item. A placeholder of `path` is gone.
pub open spec fn remapped(old: Seq<Item>, path: Seq<char>, entries: Seq<Item>, i: usize) -> Option<
    usize,
> {
    if i < old.len() && !is_placeholder(old[i as int], path) {
        Some(
            item_order(opened_list(old, path, entries)).index_of(
                place_among_others(old, path, i as int),
            ) as usize,
        )
    } else {
        None
    }
}

/// The placeholders among the items `near` that are not being read yet, by path,
/// and what is being read then.
pub open spec fn expansions(items: Seq<Item>, expanding: Set<Seq<char>>, near: Seq<int>) -> (
    Seq<Seq<char>>,
    Set<Seq<char>>,
)
    decreases near.len(),
{
    if near.len() == 0 {
        (Seq::empty(), expanding)
    } else {
        let (paths, reading) = expansions(items, expanding, near.drop_last());
        match items[near.last()] {
            Item::Container { path } => if reading.contains(normal(path@)) {
                (paths, reading)
            } else {
                (paths.push(path@), reading.insert(normal(path@)))
            },
            _ => (paths, reading),
        }
    }
}

/// How many of the first `n` items are not deleted.
pub open spec fn kept_among(deleted: Set<usize>, n: int) -> nat
    decreases n,
{
    if n <= 0 {
        0
    } else if deleted.contains((n - 1) as usize) {
        kept_among(deleted, n - 1)
    } else {
        kept_among(deleted, n - 1) + 1
    }
}

impl BrowserModel {
    pub open spec fn count(self) -> int {
        self.items.len() as int
    }

    /// The current item is in the list, as are all trashed ones and the open
    /// video, and the workers see the view as it is.
    pub open spec fn wf(self) -> bool {
        &&& 2 * self.items.len() <= usize::MAX
        &&& self.items.len() > 0 ==> self.current < self.items.len()
        &&& self.deleted.finite()
        &&& forall|i: usize| #[trigger] self.deleted.contains(i) ==> i < self.items.len()
        &&& self.video matches Some(v) ==> v.0 < self.items.len()
        &&& self.rotation < 4
        &&& self.shared.current_idx == self.current
        &&& self.shared.image_count == self.items.len()
    }

    /// The nearest item that is not deleted, wrapping around; None if there is
    /// none.
    pub open spec fn neighbor_of(self, start: int, forward: bool) -> Option<usize> {
        if self.count() == 0 || self.deleted.len() >= self.count() {
            None
        } else {
            first_kept(self.deleted, start, forward, 1, self.count())
        }
    }

    /// Item `i` is the current one.
    pub open spec fn at(self, i: usize) -> BrowserModel {
        BrowserModel { current: i, ..self }
    }

    /// Whether there is nothing to show.
    pub open spec fn is_blank(self) -> bool {
        self.count() == 0 || self.deleted.len() == self.count()
    }

    /// The title for the current item: its place among the items that are not
    /// deleted, and its path relative to the root.
    pub open spec fn title(self) -> Seq<char> {
        "["@ + decimal(kept_among(self.deleted, self.current + 1)) + "/"@ + decimal(
            (self.count() - self.deleted.len()) as nat,
        ) + "] "@ + self.items[self.current as int].title(self.root) + " - Kagami"@
    }

    /// Another list, on which nothing has been done yet.
    pub open spec fn cleared(self, items: Seq<Item>, root: Seq<char>) -> BrowserModel {
        BrowserModel {
            items,
            root,
            current: 0,
            deleted: Set::empty(),
            expanding: Set::empty(),
            titled: None,
            rotation: 0,
            video: None,
            video_error: None,
            positions: Map::empty(),
            shared: Shared { current_idx: 0, image_count: items.len() as usize },
            ..self
        }
    }

    /// The workers are told which item is the current one.
    pub open spec fn announced(self) -> BrowserModel {
        BrowserModel {
            shared: Shared { current_idx: self.current, ..self.shared },
            ..self
        }
    }

    /// The state after a new selection is being scanned.
    pub open spec fn after_opening(self) -> BrowserModel {
        (BrowserModel { scanning: true, ..self }).cleared(Seq::empty(), Seq::empty())
    }

    /// The state after a scan has come to its end.
    pub open spec fn after_scan(self, items: Seq<Item>, root: Seq<char>) -> BrowserModel {
        (BrowserModel { scanning: false, ..self }).cleared(items, root)
    }

    /// The state after the keys that move between items, and whether one did.
    pub open spec fn after_keys(self, keys: NavigationKeys) -> (BrowserModel, bool) {
        let n0 = self.neighbor_of(self.current as int, true);
        let right = keys.right && n0 is Some;
        let s1 = if right {
            self.at(n0.unwrap())
        } else {
            self
        };
        let n1 = s1.neighbor_of(s1.current as int, false);
        let left = !keys.command && (keys.left || keys.backspace) && n1 is Some;
        let s2 = if left {
            s1.at(n1.unwrap())
        } else {
            s1
        };
        let n2 = s2.neighbor_of(s2.current as int, true);
        let on = keys.space && !video_path(s2.items[s2.current as int].media()) && n2 is Some;
        let s3 = if on {
            s2.at(n2.unwrap())
        } else {
            s2
        };
        if right || left || on {
            ((BrowserModel { rotation: 0, ..s3 }).announced(), true)
        } else {
            (self, false)
        }
    }

    /// The archives and PDFs to read now, and the state while they are read.
    pub open spec fn after_approach(self) -> (BrowserModel, Seq<Seq<char>>) {
        let near = window(
            self.current as int,
            self.count(),
            EXPAND_AHEAD as int,
            EXPAND_BEHIND as int,
        ).push(self.current as int);
        if self.count() == 0 {
            (self, Seq::empty())
        } else {
            let (paths, reading) = expansions(self.items, self.expanding, near);
            (BrowserModel { expanding: reading, ..self }, paths)
        }
    }

    /// The state after the window title has been brought up to date.
    pub open spec fn after_title(self) -> BrowserModel {
        BrowserModel { titled: Some(self.current), ..self }
    }

    /// The state after the fullscreen keys, and what they come to.
    pub open spec fn after_window_keys(self, toggle: bool, escape: bool) -> (
        BrowserModel,
        WindowAction,
    ) {
        if toggle {
            (
                BrowserModel { fullscreen: !self.fullscreen, ..self },
                WindowAction::SetFullscreen(!self.fullscreen),
            )
        } else if escape && self.fullscreen {
            (BrowserModel { fullscreen: false, ..self }, WindowAction::SetFullscreen(false))
        } else if escape {
            (self, WindowAction::Close)
        } else {
            (self, WindowAction::Nothing)
        }
    }

    /// The state after the keys that turn the image.
    pub open spec fn after_turn(
        self,
        clockwise: bool,
        counterclockwise: bool,
        upright: bool,
    ) -> BrowserModel {
        BrowserModel {
            rotation: if upright {
                0
            } else {
                ((self.rotation + (if clockwise {
                    1int
                } else {
                    0
                }) + (if counterclockwise {
                    3int
                } else {
                    0
                })) % 4) as u8
            },
            ..self
        }
    }

    /// The state after the zoom has been reset.
    pub open spec fn after_reset(self) -> BrowserModel {
        BrowserModel { rotation: 0, ..self }
    }

    /// Whether a video is open that is not the current item.
    pub open spec fn has_stale_video(self) -> bool {
        self.video matches Some(v) && (v.0 != self.current || !video_path(
            self.items[self.current as int].media(),
        ))
    }

    /// The state after a stale video has been closed.
    pub open spec fn after_closing(self, clock: Clock) -> BrowserModel {
        if self.has_stale_video() {
            BrowserModel {
                positions: self.positions.insert(
                    position_key(self.items[self.video.unwrap().0 as int]),
                    self.video.unwrap().1.headed(clock),
                ),
                video: None,
                video_error: None,
                ..self
            }
        } else {
            self
        }
    }

    /// The state after the current item's video has been opened: it resumes where
    /// it was left, unless that was within its first second.
    pub open spec fn after_video_opened(self) -> BrowserModel {
        let key = position_key(self.items[self.current as int]);
        BrowserModel {
            video: Some(
                (
                    self.current,
                    VideoPlayer {
                        resume_at: if self.positions.contains_key(key) && self.positions[key]
                            > RESUME_AFTER_MS {
                            Some(self.positions[key])
                        } else {
                            None
                        },
                        ..fresh_player()
                    },
                ),
            ),
            video_error: None,
            ..self
        }
    }

    /// The state after the current item's video could not be opened.
    pub open spec fn after_video_failed(self, reason: Seq<char>) -> BrowserModel {
        BrowserModel { video_error: Some("Cannot play video: "@ + reason), ..self }
    }

    /// The state after the open video's playback state has changed.
    pub open spec fn after_playing(self, player: VideoPlayer) -> BrowserModel {
        BrowserModel {
            video: match self.video {
                Some(v) => Some((v.0, player)),
                None => None,
            },
            ..self
        }
    }

    /// What is said when there is nothing to show.
    pub open spec fn blank_text(self) -> Option<Seq<char>> {
        if !self.is_blank() {
            None
        } else if self.scanning {
            Some("Scanning\u{2026}"@)
        } else {
            Some("No images found \u{2014} press N to open"@)
        }
    }

    /// What moving the current item to the Trash comes to.
    pub open spec fn deletion(self) -> DeleteModel {
        let item = self.items[self.current as int];
        if self.count() == 0 || self.deleted.contains(self.current) || item is Container {
            DeleteModel::Nothing
        } else if item is File {
            DeleteModel::Trash(item.disk())
        } else {
            DeleteModel::Refused(item.title(self.root))
        }
    }

    /// Whether the decoded textures of item `i` are kept.
    pub open spec fn keeps(self, i: int) -> bool {
        self.count() == 0 || ring_distance(i, self.current as int, self.count()) <= CACHE_REACH
    }

    /// Whether the current item is a video that has to be opened.
    pub open spec fn lacks_video(self) -> bool {
        video_path(self.items[self.current as int].media()) && self.video is None
    }

    /// Whether the view moves when the current item is moved to the Trash.
    pub open spec fn trash_moves(self) -> bool {
        (BrowserModel { deleted: self.deleted.insert(self.current), ..self }).neighbor_of(
            self.current as int,
            true,
        ) is Some
    }

    /// The window title, if it has to change.
    pub open spec fn new_title(self) -> Option<Seq<char>> {
        if self.titled == Some(self.current) {
            None
        } else {
            Some(self.title())
        }
    }

    /// The state after the current item has been moved to the Trash.
    pub open spec fn after_trash(self) -> BrowserModel {
        let cur = self.current;
        let closes = self.video matches Some(v) && v.0 == cur;
        let gone = BrowserModel {
            deleted: self.deleted.insert(cur),
            video: if closes {
                None
            } else {
                self.video
            },
            video_error: if closes {
                None
            } else {
                self.video_error
            },
            ..self
        };
        match gone.neighbor_of(cur as int, true) {
            Some(n) => (BrowserModel { current: n, rotation: 0, ..gone }).announced(),
            None => gone,
        }
    }

    /// The state once the archive or PDF at `path` has been read, with its entries
    /// in place of its placeholder. Everything that refers to another item follows
    /// that item to its new place; from the placeholder itself the view goes to the
    /// first item of the file at `path`, or to the start if it yielded none.
    pub open spec fn after_expansion(self, path: Seq<char>, entries: Seq<Item>) -> BrowserModel {
        let old = self.items;
        let next = expanded_list(old, path, entries);
        let on_placeholder = self.current < old.len() && is_placeholder(
            old[self.current as int],
            path,
        );
        let found = if on_placeholder {
            index_of_disk(next, path)
        } else {
            remapped(old, path, entries, self.current)
        };
        let current = match found {
            Some(i) => i,
            None => 0,
        };
        BrowserModel {
            items: next,
            current,
            deleted: Set::new(
                |n: usize|
                    exists|i: usize| #[trigger]
                        self.deleted.contains(i) && remapped(old, path, entries, i) == Some(n),
            ),
            expanding: self.expanding.remove(normal(path)),
            video: match self.video {
                Some(v) => match remapped(old, path, entries, v.0) {
                    Some(n) => Some((n, v.1)),
                    None => None,
                },
                None => None,
            },
            titled: None,
            shared: Shared { current_idx: current, image_count: next.len() as usize },
            ..self
        }
    }
}

/// What moving the current item to the Trash comes to.
pub enum DeletePlan {
    /// There is nothing to trash.
    Nothing,
    /// The item of this title is inside a container: trashing it would take the
    /// whole container with it.
    Refused(String),
    /// Move the file at this path to the Trash.
    Trash(String),
}

/// The same, over mathematical values.
pub enum DeleteModel {
    Nothing,
    Refused(Seq<char>),
    Trash(Seq<char>),
}

impl View for DeletePlan {
    type V = DeleteModel;

    open spec fn view(&self) -> DeleteModel {
        match self {
            DeletePlan::Nothing => DeleteModel::Nothing,
            DeletePlan::Refused(title) => DeleteModel::Refused(title@),
            DeletePlan::Trash(path) => DeleteModel::Trash(path@),
        }
    }
}

/// The keys that move between items.
#[derive(Clone, Copy)]
pub struct NavigationKeys {
    pub right: bool,
    pub left: bool,
    pub backspace: bool,
    pub command: bool,
    pub space: bool,
}

/// What the fullscreen keys come to.
#[derive(Clone, Copy, PartialEq, Eq, Structural, Debug)]
pub enum WindowAction {
    Nothing,
    SetFullscreen(bool),
    Close,
}

/// An archive or PDF that has been read, and the entries it yielded (none if it
/// is unreadable).
pub struct ExpandResult {
    pub path: String,
    pub entries: Vec<Item>,
}

/// The viewer's browsing state.
pub struct Browser {
    items: Arc<Vec<Item>>,
    root: String,
    current_index: usize,
    // Kept rather than removed from the list, so that positions stay valid;
    // navigation skips them.
    deleted: HashSet<usize>,
    // Containers being read, so that each is read only once.
    expanding: StringHashSet,
    last_title_index: Option<usize>,
    rotation: u8,
    video: Option<(usize, VideoPlayer)>,
    video_error: Option<String>,
    video_positions: Positions,
    fullscreen: bool,
    scanning: bool,
    shared: Shared,
}

impl View for Browser {
    type V = BrowserModel;

    closed spec fn view(&self) -> BrowserModel {
        BrowserModel {
            items: self.items@,
            root: self.root@,
            current: self.current_index,
            deleted: self.deleted@,
            expanding: self.expanding@,
            titled: self.last_title_index,
            rotation: self.rotation,
            video: self.video,
            video_error: match self.video_error {
                Some(e) => Some(e@),
                None => None,
            },
            positions: self.video_positions@,
            fullscreen: self.fullscreen,
            scanning: self.scanning,
            shared: self.shared,
        }
    }
}

impl Browser {
    /// Nothing is browsed.
    pub fn new() -> (r: Self)
        ensures
            r@ == (BrowserModel {
                items: Seq::empty(),
                root: Seq::empty(),
                current: 0,
                deleted: Set::empty(),
                expanding: Set::empty(),
                titled: None,
                rotation: 0,
                video: None,
                video_error: None,
                positions: Map::empty(),
                fullscreen: false,
                scanning: false,
                shared: Shared { current_idx: 0, image_count: 0 },
            }),
            r@.wf(),
    {
        let r = Browser {
            items: Arc::new(Vec::new()),
            root: String::new(),
            current_index: 0,
            deleted: HashSet::new(),
            expanding: StringHashSet::new(),
            last_title_index: None,
            rotation: 0,
            video: None,
            video_error: None,
            video_positions: Positions::new(),
            fullscreen: false,
            scanning: false,
            shared: Shared { current_idx: 0, image_count: 0 },
        };
        assert(r@.items =~= Seq::<Item>::empty());
        assert(r@.root =~= Seq::<char>::empty());
        r
    }

    /// The items being browsed.
    pub fn items(&self) -> (r: Arc<Vec<Item>>)
        ensures
            r@ == self@.items,
    {
        Arc::clone(&self.items)
    }

    pub fn current_index(&self) -> (r: usize)
        ensures
            r == self@.current,
    {
        self.current_index
    }

    /// What the background workers are told of the view.
    pub fn shared(&self) -> (r: Shared)
        ensures
            r == self@.shared,
    {
        self.shared
    }

    pub fn rotation(&self) -> (r: u8)
        ensures
            r == self@.rotation,
    {
        self.rotation
    }

    pub fn is_fullscreen(&self) -> (r: bool)
        ensures
            r == self@.fullscreen,
    {
        self.fullscreen
    }

    /// The open video's player.
    pub fn player(&self) -> (r: Option<VideoPlayer>)
        ensures
            r == (match self@.video {
                Some(v) => Some(v.1),
                None => None,
            }),
    {
        match self.video {
            Some((_, p)) => Some(p),
            None => None,
        }
    }

    /// Keep the open video's new playback state.
    pub fn set_player(&mut self, player: VideoPlayer)
        ensures
            final(self)@ == old(self)@.after_playing(player),
            old(self)@.wf() ==> final(self)@.wf(),
    {
        if let Some((i, _)) = self.video {
            self.video = Some((i, player));
        }
    }

    /// What is said in place of a video that is not playing.
    pub fn video_message(&self) -> (r: String)
        ensures
            r@ == (match self@.video_error {
                Some(e) => e,
                None => "Loading video..."@,
            }),
    {
        match &self.video_error {
            Some(e) => e.clone(),
            None => "Loading video...".to_string(),
        }
    }

    /// A new selection is being scanned: the stale list stops showing.
    pub fn open_paths(&mut self)
        requires
            old(self)@.wf(),
        ensures
            final(self)@ == old(self)@.after_opening(),
            final(self)@.wf(),
    {
        self.scanning = true;
        let root = String::new();
        assert(root@ =~= Seq::<char>::empty());
        let items: Vec<Item> = Vec::new();
        assert(items@ =~= Seq::<Item>::empty());
        self.reset(items, root);
    }

    /// Browse the result of a completed scan.
    pub fn install_scanned(&mut self, result: ScanResult)
        requires
            old(self)@.wf(),
            2 * result.items@.len() <= usize::MAX,
        ensures
            final(self)@ == old(self)@.after_scan(result.items@, result.root@),
            final(self)@.wf(),
    {
        self.scanning = false;
        self.reset(result.items, result.root);
    }

    /// Browse `items` from the start.
    fn reset(&mut self, items: Vec<Item>, root: String)
        requires
            old(self)@.wf(),
            2 * items@.len() <= usize::MAX,
        ensures
            final(self)@ == old(self)@.cleared(items@, root@),
            final(self)@.wf(),
    {
        self.root = root;
        self.deleted.clear();
        self.expanding.clear();
        self.video = None;
        self.video_error = None;
        self.video_positions.clear();
        self.last_title_index = None;
        self.rotation = 0;
        self.shared = Shared { current_idx: 0, image_count: items.len() };
        self.items = Arc::new(items);
        self.current_index = 0;
    }

    /// What is said when there is nothing to show.
    pub fn blank_message(&self) -> (r: Option<&'static str>)
        ensures
            (match r {
                Some(text) => self@.blank_text() == Some(text@),
                None => self@.blank_text() is None,
            }),
    {
        if self.items.len() == 0 || self.deleted.len() == self.items.len() {
            if self.scanning {
                Some("Scanning\u{2026}")
            } else {
                Some("No images found \u{2014} press N to open")
            }
        } else {
            None
        }
    }

    /// Nearest item from `start` that is not deleted, forward for a positive `dir`
    /// and else backward, wrapping around. None if everything is deleted.
    pub fn neighbor(&self, start: usize, dir: isize) -> (r: Option<usize>)
        requires
            self@.wf(),
            self@.count() == 0 || start < self@.count(),
        ensures
            r == self@.neighbor_of(start as int, dir > 0),
            r matches Some(i) ==> i < self@.count() && !self@.deleted.contains(i),
    {
        let n: usize = self.items.len();
        if n == 0 || self.deleted.len() >= n {
            return None;
        }
        let forward: bool = dir > 0;
        let mut k: usize = 1;
        while k <= n
            invariant
                n == self@.count(),
                n > 0,
                start < n,
                2 * n <= usize::MAX,
                1 <= k <= n + 1,
                forward == (dir > 0),
                self@.deleted.len() < self@.count(),
                self@.neighbor_of(start as int, forward) == first_kept(
                    self@.deleted,
                    start as int,
                    forward,
                    k as int,
                    n as int,
                ),
            decreases n + 1 - k,
        {
            let i: usize = if forward {
                (start + k) % n
            } else {
                (start + n - k) % n
            };
            proof {
                vstd::arithmetic::div_mod::lemma_mod_add_multiples_vanish(start - k, n as int);
                assert((start - k) + n == start + n - k);
                assert(i == place_at(start as int, forward, k as int, n as int));
            }
            if !self.deleted.contains(&i) {
                return Some(i);
            }
            k = k + 1;
        }
        None
    }

    /// What moving the current item to the Trash comes to. Archive entries and
    /// PDF pages are read-only views, and a placeholder is still opening.
    pub fn delete_current(&self) -> (r: DeletePlan)
        requires
            self@.wf(),
        ensures
            r@ == self@.deletion(),
    {
        let cur: usize = self.current_index;
        if self.items.len() == 0 || self.deleted.contains(&cur) {
            return DeletePlan::Nothing;
        }
        let item = &self.items[cur];
        if item.is_archived() || item.is_pdf() {
            return DeletePlan::Refused(item.display(self.root.as_str()));
        }
        if item.is_container() {
            return DeletePlan::Nothing;
        }
        DeletePlan::Trash(item.disk_path().to_string())
    }

    /// The current item has been moved to the Trash: go on to a remaining one.
    /// Returns whether the view moved.
    pub fn trashed(&mut self) -> (r: bool)
        requires
            old(self)@.wf(),
            old(self)@.count() > 0,
        ensures
            final(self)@ == old(self)@.after_trash(),
            final(self)@.wf(),
            r == old(self)@.trash_moves(),
    {
        let cur: usize = self.current_index;
        self.deleted.insert(cur);
        let closes: bool = match self.video {
            Some((i, _)) => i == cur,
            None => false,
        };
        if closes {
            self.video = None;
            self.video_error = None;
        }
        match self.neighbor(cur, 1) {
            Some(next) => {
                self.current_index = next;
                self.rotation = 0;
                self.shared.current_idx = next;
                true
            },
            None => false,
        }
    }

    /// Move between items with the arrow keys, Backspace and space, skipping
    /// trashed ones. Space plays and pauses a video instead. Returns whether a key
    /// moved the view, which then stands upright.
    pub fn navigate(&mut self, keys: NavigationKeys) -> (r: bool)
        requires
            old(self)@.wf(),
            old(self)@.count() > 0,
        ensures
            (final(self)@, r) == old(self)@.after_keys(keys),
            final(self)@.wf(),
    {
        let mut cur: usize = self.current_index;
        let mut changed: bool = false;
        if keys.right {
            if let Some(n) = self.neighbor(cur, 1) {
                cur = n;
                changed = true;
            }
        }
        if !keys.command && (keys.left || keys.backspace) {
            if let Some(n) = self.neighbor(cur, -1) {
                cur = n;
                changed = true;
            }
        }
        if keys.space && !is_video_file(self.items[cur].media_name()) {
            if let Some(n) = self.neighbor(cur, 1) {
                cur = n;
                changed = true;
            }
        }
        if changed {
            self.current_index = cur;
            self.rotation = 0;
            self.shared.current_idx = cur;
        }
        changed
    }

    /// The archives and PDFs that the view has come near, and only those, which
    /// have to be read now. Each is read once even while its read is running.
    pub fn maybe_expand(&mut self) -> (r: Vec<String>)
        requires
            old(self)@.wf(),
        ensures
            (final(self)@, r@.map_values(|p: String| p@)) == old(self)@.after_approach(),
            final(self)@.wf(),
    {
        let mut out: Vec<String> = Vec::new();
        assert(out@.map_values(|p: String| p@) =~= Seq::<Seq<char>>::empty());
        let count: usize = self.items.len();
        if count == 0 {
            return out;
        }
        let cur: usize = self.current_index;
        let mut near = window_indices(cur, count, EXPAND_AHEAD, EXPAND_BEHIND);
        let ghost win = window(cur as int, count as int, EXPAND_AHEAD as int, EXPAND_BEHIND as int);
        proof {
            window_covers_reach(cur as int, count as int, EXPAND_AHEAD as int, EXPAND_BEHIND as int);
        }
        let ghost w = near@;
        near.push(cur);
        let ghost all = places(near@);
        assert(all =~= win.push(cur as int));
        assert forall|j: int| 0 <= j < near@.len() implies #[trigger] near@[j] < count by {
            if j < w.len() {
                assert(places(w)[j] == w[j] as int);
                assert(win.contains(w[j] as int));
            }
        }
        let ghost before = self@;
        assert(all.take(0).len() == 0);
        for k in 0..near.len()
            invariant
                all == places(near@),
                count == before.count(),
                before.wf(),
                self@ == (BrowserModel { expanding: self@.expanding, ..before }),
                forall|j: int| 0 <= j < near@.len() ==> #[trigger] near@[j] < count,
                (out@.map_values(|p: String| p@), self@.expanding) == expansions(
                    before.items,
                    before.expanding,
                    all.take(k as int),
                ),
        {
            let ghost upto = all.take(k + 1);
            assert(upto.drop_last() =~= all.take(k as int));
            let i: usize = near[k];
            assert(upto.last() == i as int);
            let ghost reading = self@.expanding;
            let ghost so_far = out@;
            if let Item::Container { path } = &self.items[i] {
                let text = path.as_str().to_string();
                if self.expanding.insert(normal_form(text.as_str())) {
                    out.push(text);
                    assert(out@.map_values(|p: String| p@) =~= so_far.map_values(
                        |p: String| p@,
                    ).push(text@));
                } else {
                    assert(self@.expanding =~= reading);
                }
            }
        }
        assert(all.take(near@.len() as int) =~= all);
        out
    }

    /// Fold a finished expansion into the list in place of its placeholder,
    /// keeping the item on screen in view. Returns, for each old position, the new
    /// one, so that decoded textures can follow.
    pub fn apply_expansion(&mut self, res: ExpandResult) -> (r: Vec<Option<usize>>)
        requires
            old(self)@.wf(),
            2 * (old(self)@.items.len() + res.entries@.len()) <= usize::MAX,
        ensures
            final(self)@ == old(self)@.after_expansion(res.path@, res.entries@),
            final(self)@.wf(),
            is_sorted_list(
                opened_list(old(self)@.items, res.path@, res.entries@),
                final(self)@.items,
            ),
            r@.len() == old(self)@.items.len(),
            forall|i: int|
                0 <= i < r@.len() ==> #[trigger] r@[i] == remapped(
                    old(self)@.items,
                    res.path@,
                    res.entries@,
                    i as usize,
                ),
            forall|i: int|
                0 <= i < r@.len() ==> match #[trigger] r@[i] {
                    Some(n) => n < final(self)@.items.len() && final(self)@.items[n as int]
                        == old(self)@.items[i],
                    None => is_placeholder(old(self)@.items[i], res.path@),
                },
            forall|i: int, j: int|
                0 <= i < j < r@.len() && #[trigger] r@[i] is Some ==> r@[i] != #[trigger] r@[j],
    {
        let ghost before = self@;
        let path = res.path;
        let ghost from = res.entries@;
        let key = normal_form(path.as_str());
        self.expanding.remove(key.as_str());
        let old_items = Arc::clone(&self.items);
        let n: usize = old_items.len();
        let on_placeholder: bool = self.current_index < n && placeholder_of(
            &old_items[self.current_index],
            path.as_str(),
        );
        let mut list: Vec<Item> = Vec::new();
        // The place of each old item in the list, if it is still there.
        let mut kept: Vec<Option<usize>> = Vec::new();
        for i in 0..n
            invariant
                old_items@ == before.items,
                n == before.items.len(),
                list@ == without_placeholder(before.items.take(i as int), path@),
                list@.len() <= i,
                kept@.len() == i,
                forall|j: int|
                    0 <= j < i ==> #[trigger] kept@[j] == (if is_placeholder(
                        before.items[j],
                        path@,
                    ) {
                        None
                    } else {
                        Some(place_among_others(before.items, path@, j) as usize)
                    }),
        {
            let ghost upto = before.items.take(i + 1);
            assert(upto.drop_last() =~= before.items.take(i as int));
            assert(upto.last() == before.items[i as int]);
            if placeholder_of(&old_items[i], path.as_str()) {
                kept.push(None);
            } else {
                kept.push(Some(list.len()));
                list.push(old_items[i].clone());
            }
        }
        assert(before.items.take(n as int) =~= before.items);
        let mut entries = res.entries;
        list.append(&mut entries);
        assert(list@ =~= opened_list(before.items, path@, from));
        let order = order_items(&list);
        let next = arrange(&list, &order);
        let places = places_of(&list, &order);
        let mut remap: Vec<Option<usize>> = Vec::new();
        for i in 0..n
            invariant
                n == before.items.len(),
                n == kept@.len(),
                list@ == opened_list(before.items, path@, from),
                places@.len() == list@.len(),
                forall|k: int|
                    0 <= k < places@.len() ==> #[trigger] places@[k] == item_order(
                        list@,
                    ).index_of(k) as usize,
                forall|j: int|
                    0 <= j < n ==> #[trigger] kept@[j] == (if is_placeholder(
                        before.items[j],
                        path@,
                    ) {
                        None
                    } else {
                        Some(place_among_others(before.items, path@, j) as usize)
                    }),
                2 * (n + from.len()) <= usize::MAX,
                remap@.len() == i,
                forall|j: int|
                    0 <= j < i ==> #[trigger] remap@[j] == remapped(
                        before.items,
                        path@,
                        from,
                        j as usize,
                    ),
        {
            proof {
                if !is_placeholder(before.items[i as int], path@) {
                    others_keep_their_place(before.items, path@, i as int);
                }
            }
            let place: Option<usize> = match kept[i] {
                Some(k) => Some(places[k]),
                None => None,
            };
            remap.push(place);
        }
        let found: Option<usize> = if on_placeholder {
            find_disk(&next, path.as_str())
        } else if self.current_index < n {
            remap[self.current_index]
        } else {
            None
        };
        let ghost new_items = next@;
        let mut deleted: HashSet<usize> = HashSet::new();
        for i in 0..n
            invariant
                n == before.items.len(),
                n == remap@.len(),
                self@.deleted == before.deleted,
                forall|j: int|
                    0 <= j < remap@.len() ==> #[trigger] remap@[j] == remapped(
                        before.items,
                        path@,
                        from,
                        j as usize,
                    ),
                forall|m: usize|
                    deleted@.contains(m) <==> exists|j: usize| #[trigger]
                        before.deleted.contains(j) && j < i && remapped(
                            before.items,
                            path@,
                            from,
                            j,
                        ) == Some(m),
                deleted@.finite(),
        {
            let ghost so_far = deleted@;
            if self.deleted.contains(&i) {
                if let Some(m) = remap[i] {
                    deleted.insert(m);
                }
            }
            assert forall|m: usize|
                deleted@.contains(m) <==> exists|j: usize| #[trigger]
                    before.deleted.contains(j) && j < i + 1 && remapped(
                        before.items,
                        path@,
                        from,
                        j,
                    ) == Some(m) by {
                assert(remap@[i as int] == remapped(before.items, path@, from, i));
                if so_far.contains(m) {
                    let j = choose|j: usize| #[trigger]
                        before.deleted.contains(j) && j < i && remapped(
                            before.items,
                            path@,
                            from,
                            j,
                        ) == Some(m);
                    assert(before.deleted.contains(j) && j < i + 1);
                }
                if before.deleted.contains(i) && remapped(before.items, path@, from, i) == Some(
                    m,
                ) {
                    assert(before.deleted.contains(i) && i < i + 1);
                }
            }
        }
        let video: Option<(usize, VideoPlayer)> = match self.video {
            Some((i, p)) => match remap[i] {
                Some(m) => Some((m, p)),
                None => None,
            },
            None => None,
        };
        self.deleted = deleted;
        self.video = video;
        self.last_title_index = None;
        self.current_index = match found {
            Some(i) => i,
            None => 0,
        };
        self.shared = Shared { current_idx: self.current_index, image_count: next.len() };
        self.items = Arc::new(next);
        proof {
            let after = before.after_expansion(path@, from);
            assert(new_items == expanded_list(before.items, path@, from));
            assert(is_sorted_list(opened_list(before.items, path@, from), new_items));
            assert(self@.deleted =~= after.deleted) by {
                assert forall|m: usize| self@.deleted.contains(m) <==> after.deleted.contains(m) by {
                    if after.deleted.contains(m) {
                        let j = choose|j: usize| #[trigger]
                            before.deleted.contains(j) && remapped(before.items, path@, from, j)
                                == Some(m);
                        assert(before.deleted.contains(j) && j < n);
                    }
                }
            }
            assert(self@ =~= after);
            assert forall|i: int| 0 <= i < remap@.len() implies match #[trigger] remap@[i] {
                Some(m) => m < new_items.len() && new_items[m as int] == before.items[i],
                None => is_placeholder(before.items[i], path@),
            } by {
                if !is_placeholder(before.items[i], path@) {
                    expansion_keeps_items(before.items, path@, from, i as usize);
                }
            }
            assert forall|i: int, j: int|
                0 <= i < j < remap@.len() && #[trigger] remap@[i] is Some implies remap@[i]
                != #[trigger] remap@[j] by {
                if remap@[j] is Some {
                    expansion_separates_items(before.items, path@, from, i as usize, j as usize);
                }
            }
            expansion_stays_in_list(before, path@, from);
        }
        remap
    }

    /// Whether the decoded textures of item `idx` are kept.
    pub fn keeps_texture(&self, idx: usize) -> (r: bool)
        requires
            self@.wf(),
            self@.count() > 0 ==> idx < self@.count(),
        ensures
            r == self@.keeps(idx as int),
    {
        if self.items.len() == 0 {
            return true;
        }
        circular_dist(idx, self.current_index, self.items.len()) <= CACHE_REACH
    }

    /// The window title, if it has to change: the item's place among those not
    /// trashed, and its path relative to the opened folder.
    pub fn update_title(&mut self) -> (r: Option<String>)
        requires
            old(self)@.wf(),
            old(self)@.count() > 0,
        ensures
            final(self)@ == old(self)@.after_title(),
            (match r {
                Some(title) => old(self)@.new_title() == Some(title@),
                None => old(self)@.new_title() is None,
            }),
            final(self)@.wf(),
    {
        if self.last_title_index == Some(self.current_index) {
            return None;
        }
        let cur: usize = self.current_index;
        let name = self.items[cur].display(self.root.as_str());
        proof {
            trashed_items_are_counted(self@);
        }
        let total: usize = self.items.len() - self.deleted.len();
        let mut ordinal: usize = 0;
        for i in 0..(cur + 1)
            invariant
                self@ == old(self)@,
                ordinal == kept_among(self@.deleted, i as int),
                ordinal <= i,
        {
            if !self.deleted.contains(&i) {
                ordinal = ordinal + 1;
            }
        }
        let mut title = "[".to_string();
        push_decimal(&mut title, ordinal as u128);
        title.append("/");
        push_decimal(&mut title, total as u128);
        title.append("] ");
        title.append(name.as_str());
        title.append(" - Kagami");
        self.last_title_index = Some(cur);
        Some(title)
    }

    /// The fullscreen keys: Enter or F toggle; Escape leaves fullscreen, or quits
    /// when windowed.
    pub fn window_keys(&mut self, toggle: bool, escape: bool) -> (r: WindowAction)
        ensures
            (final(self)@, r) == old(self)@.after_window_keys(toggle, escape),
            old(self)@.wf() ==> final(self)@.wf(),
    {
        if toggle {
            self.fullscreen = !self.fullscreen;
            WindowAction::SetFullscreen(self.fullscreen)
        } else if escape {
            if self.fullscreen {
                self.fullscreen = false;
                WindowAction::SetFullscreen(false)
            } else {
                WindowAction::Close
            }
        } else {
            WindowAction::Nothing
        }
    }

    /// Turn the image on screen: clockwise, counterclockwise, or back upright.
    pub fn rotate_view(&mut self, clockwise: bool, counterclockwise: bool, upright: bool)
        requires
            old(self)@.wf(),
        ensures
            final(self)@ == old(self)@.after_turn(clockwise, counterclockwise, upright),
            final(self)@.wf(),
    {
        if clockwise {
            self.rotation = (self.rotation + 1) % 4;
        }
        if counterclockwise {
            self.rotation = (self.rotation + 3) % 4;
        }
        if upright {
            self.rotation = 0;
        }
    }

    /// The zoom has been reset, and the rotation with it.
    pub fn reset_zoom(&mut self)
        ensures
            final(self)@ == old(self)@.after_reset(),
            old(self)@.wf() ==> final(self)@.wf(),
    {
        self.rotation = 0;
    }

    /// Whether the current item is a video.
    pub fn shows_video(&self) -> (r: bool)
        requires
            self@.wf(),
            self@.count() > 0,
        ensures
            r == video_path(self@.items[self@.current as int].media()),
    {
        is_video_file(self.items[self.current_index].media_name())
    }

    /// Close the open video if it is not the current item, remembering where it
    /// was left. Returns whether a video was closed.
    pub fn close_stale_video(&mut self, clock: Clock) -> (r: bool)
        requires
            old(self)@.wf(),
            old(self)@.count() > 0,
        ensures
            r == old(self)@.has_stale_video(),
            final(self)@ == old(self)@.after_closing(clock),
            final(self)@.wf(),
    {
        let is_video: bool = self.shows_video();
        match self.video {
            Some((idx, player)) => {
                if idx != self.current_index || !is_video {
                    let (disk, media) = video_key(&self.items[idx]);
                    self.video_positions.set(disk, media, player.position(clock));
                    self.video = None;
                    self.video_error = None;
                    return true;
                }
                false
            },
            None => false,
        }
    }

    /// Whether the current item is a video that has to be opened.
    pub fn wants_video(&self) -> (r: bool)
        requires
            self@.wf(),
            self@.count() > 0,
        ensures
            r == self@.lacks_video(),
    {
        self.shows_video() && self.video.is_none()
    }

    /// The current item's video has been opened: it resumes where it was left,
    /// unless that was within its first second.
    pub fn video_opened(&mut self)
        requires
            old(self)@.wf(),
            old(self)@.count() > 0,
        ensures
            final(self)@ == old(self)@.after_video_opened(),
            final(self)@.wf(),
    {
        let cur: usize = self.current_index;
        let mut player = VideoPlayer::start();
        let (disk, media) = video_key(&self.items[cur]);
        if let Some(pos) = self.video_positions.get(disk.as_str(), media.as_str()) {
            if pos > RESUME_AFTER_MS {
                player.resume_from(pos);
            }
        }
        self.video = Some((cur, player));
        self.video_error = None;
    }

    /// The current item's video could not be opened.
    pub fn video_failed(&mut self, reason: &str)
        ensures
            final(self)@ == old(self)@.after_video_failed(reason@),
            old(self)@.wf() ==> final(self)@.wf(),
    {
        let mut text = "Cannot play video: ".to_string();
        text.append(reason);
        self.video_error = Some(text);
    }
}

/// The texture corner at screen corner `i` of a view turned by `rotation` quarters.
pub open spec fn corner_at(i: int, rotation: int) -> int {
    (i - rotation) % 4
}

/// The texture corner that is drawn at screen corner `i` when the view is turned
/// by `rotation` quarter turns; both are counted clockwise from the top left.
pub fn texture_corner(i: usize, rotation: u8) -> (r: usize)
    requires
        i < 4,
        rotation < 4,
    ensures
        r == corner_at(i as int, rotation as int),
        r < 4,
{
    (i + 4 - rotation as usize) % 4
}

/// Whether an item is the placeholder of the archive or PDF at `path`.
fn placeholder_of(item: &Item, path: &str) -> (r: bool)
    ensures
        r == is_placeholder(*item, path@),
{
    match item {
        Item::Container { path: p } => same_path(p.as_str(), path),
        _ => false,
    }
}

/// The first item backed by the file at `path`.
fn find_disk(items: &Vec<Item>, path: &str) -> (r: Option<usize>)
    ensures
        r == index_of_disk(items@, path@),
{
    for i in 0..items.len()
        invariant
            index_of_disk(items@.take(i as int), path@) is None,
    {
        let ghost upto = items@.take(i + 1);
        assert(upto.drop_last() =~= items@.take(i as int));
        assert(upto.last() == items@[i as int]);
        if same_path(items[i].disk_path(), path) {
            proof {
                first_disk_stays(items@, path@, i + 1);
            }
            return Some(i);
        }
    }
    assert(items@.take(items@.len() as int) =~= items@);
    None
}

proof fn first_disk_stays(items: Seq<Item>, path: Seq<char>, n: int)
    requires
        0 <= n <= items.len(),
        index_of_disk(items.take(n), path) is Some,
    ensures
        index_of_disk(items, path) == index_of_disk(items.take(n), path),
    decreases items.len(),
{
    if n == items.len() {
        assert(items.take(n) =~= items);
    } else {
        assert(items.drop_last().take(n) =~= items.take(n));
        first_disk_stays(items.drop_last(), path, n);
    }
}

proof fn index_of_disk_in_range(items: Seq<Item>, path: Seq<char>)
    requires
        items.len() <= usize::MAX,
    ensures
        index_of_disk(items, path) matches Some(i) ==> i < items.len() && same(
            items[i as int].disk(),
            path,
        ) && forall|k: int| 0 <= k < i ==> !same(#[trigger] items[k].disk(), path),
        index_of_disk(items, path) is None ==> forall|k: int|
            0 <= k < items.len() ==> !same(#[trigger] items[k].disk(), path),
    decreases items.len(),
{
    if items.len() > 0 {
        let init = items.drop_last();
        index_of_disk_in_range(init, path);
        assert forall|k: int| 0 <= k < init.len() implies #[trigger] items[k] == init[k] by {}
    }
}

/// Where sorting puts each position: the inverse of `order`.
fn places_of(items: &Vec<Item>, order: &Vec<usize>) -> (r: Vec<usize>)
    requires
        index_ints(order@) == item_order(items@),
        is_natural_order(sort_keys(items@), index_ints(order@)),
        forall|i: int| 0 <= i < order@.len() ==> #[trigger] order@[i] < items@.len(),
        order@.len() == items@.len(),
    ensures
        r@.len() == items@.len(),
        forall|k: int|
            0 <= k < r@.len() ==> #[trigger] r@[k] == item_order(items@).index_of(k) as usize,
{
    let ghost p = item_order(items@);
    let n: usize = items.len();
    let mut out: Vec<usize> = Vec::new();
    for i in 0..n
        invariant
            out@.len() == i,
    {
        out.push(0);
    }
    proof {
        natural_order_is_permutation(sort_keys(items@), p);
    }
    for i in 0..n
        invariant
            n == items@.len(),
            n == order@.len(),
            p == index_ints(order@),
            p.no_duplicates(),
            out@.len() == n,
            forall|j: int| 0 <= j < order@.len() ==> #[trigger] order@[j] < n,
            forall|j: int| 0 <= j < i ==> out@[#[trigger] order@[j] as int] == j,
    {
        let ghost earlier = out@;
        let at: usize = order[i];
        out.set(at, i);
        assert forall|j: int| 0 <= j < i + 1 implies out@[#[trigger] order@[j] as int] == j by {
            if j < i {
                assert(p[j] != p[i as int]);
                assert(out@[order@[j] as int] == earlier[order@[j] as int]);
            }
        }
    }
    assert forall|k: int| 0 <= k < out@.len() implies #[trigger] out@[k] == p.index_of(k) as usize by {
        assert(p.contains(k));
        let j = p.index_of(k);
        assert(p[j] == k);
        assert(order@[j] as int == k);
    }
    out
}

proof fn kept_and_deleted(deleted: Set<usize>, n: int)
    requires
        deleted.finite(),
        0 <= n <= usize::MAX,
    ensures
        kept_among(deleted, n) + deleted.filter(|i: usize| i < n).len() == n,
        deleted.filter(|i: usize| i < n).finite(),
    decreases n,
{
    let here = deleted.filter(|i: usize| i < n);
    deleted.lemma_len_filter(|i: usize| i < n);
    if n == 0 {
        assert(here =~= Set::<usize>::empty());
    } else {
        kept_and_deleted(deleted, n - 1);
        let before = deleted.filter(|i: usize| i < n - 1);
        let last = (n - 1) as usize;
        if deleted.contains(last) {
            assert(here =~= before.insert(last));
            assert(!before.contains(last));
        } else {
            assert(here =~= before);
        }
    }
}

/// There are never more items trashed than there are items, and the rest is what
/// the title counts.
pub proof fn trashed_items_are_counted(s: BrowserModel)
    requires
        s.wf(),
    ensures
        s.deleted.len() <= s.count(),
        kept_among(s.deleted, s.count()) == s.count() - s.deleted.len(),
{
    kept_and_deleted(s.deleted, s.count());
    assert(s.deleted.filter(|i: usize| i < s.count()) =~= s.deleted);
}

proof fn kept_among_grows(deleted: Set<usize>, a: int, b: int)
    requires
        0 <= a <= b,
    ensures
        kept_among(deleted, a) <= kept_among(deleted, b),
    decreases b,
{
    if a < b {
        kept_among_grows(deleted, a, b - 1);
    }
}

/// The title's position stays sensible after trashing: an item that is not
/// trashed has a place from one to the number of remaining items.
pub proof fn title_position_is_in_range(s: BrowserModel)
    requires
        s.wf(),
        s.count() > 0,
        !s.deleted.contains(s.current),
    ensures
        1 <= kept_among(s.deleted, s.current + 1) <= s.count() - s.deleted.len(),
{
    trashed_items_are_counted(s);
    kept_among_grows(s.deleted, s.current + 1, s.count());
}

proof fn none_kept(deleted: Set<usize>, n: int, i: int)
    requires
        0 <= i < n <= usize::MAX,
        kept_among(deleted, n) == 0,
    ensures
        deleted.contains(i as usize),
    decreases n,
{
    if i < n - 1 {
        none_kept(deleted, n - 1, i);
    }
}

proof fn first_kept_finds(
    deleted: Set<usize>,
    start: int,
    forward: bool,
    k: int,
    j: int,
    n: int,
)
    requires
        k <= j <= n,
        !deleted.contains(place_at(start, forward, j, n) as usize),
    ensures
        first_kept(deleted, start, forward, k, n) is Some,
    decreases j - k,
{
    if k < j {
        first_kept_finds(deleted, start, forward, k + 1, j, n);
    }
}

/// Navigation always finds a place to go while anything is left: there is no
/// neighbour only if everything is trashed.
pub proof fn neighbor_exists_unless_all_trashed(s: BrowserModel, start: int, forward: bool)
    requires
        s.wf(),
        s.count() == 0 || 0 <= start < s.count(),
    ensures
        s.neighbor_of(start, forward) is None <==> forall|i: usize|
            i < s.count() ==> #[trigger] s.deleted.contains(i),
{
    let n = s.count();
    trashed_items_are_counted(s);
    if s.deleted.len() >= n {
        assert forall|i: usize| i < n implies #[trigger] s.deleted.contains(i) by {
            none_kept(s.deleted, n, i as int);
        }
    } else {
        some_kept(s.deleted, n);
        let w = choose|i: usize| i < n && !#[trigger] s.deleted.contains(i);
        let i = w as int;
        let k = if forward {
            if i > start {
                i - start
            } else {
                i - start + n
            }
        } else {
            if i < start {
                start - i
            } else {
                start - i + n
            }
        };
        assert(1 <= k <= n);
        assert(place_at(start, forward, k, n) == i) by {
            vstd::arithmetic::div_mod::lemma_small_mod(i as nat, n as nat);
            vstd::arithmetic::div_mod::lemma_mod_add_multiples_vanish(i, n);
            vstd::arithmetic::div_mod::lemma_mod_sub_multiples_vanish(i, n);
        }
        first_kept_finds(s.deleted, start, forward, 1, k, n);
        assert(w < n && !s.deleted.contains(w));
    }
}

proof fn some_kept(deleted: Set<usize>, n: int)
    requires
        0 <= n <= usize::MAX,
        kept_among(deleted, n) > 0,
    ensures
        exists|i: usize| i < n && !#[trigger] deleted.contains(i),
    decreases n,
{
    let last = (n - 1) as usize;
    if deleted.contains(last) {
        some_kept(deleted, n - 1);
        let i = choose|i: usize| i < n - 1 && !#[trigger] deleted.contains(i);
        assert(i < n && !deleted.contains(i));
    } else {
        assert(last < n && !deleted.contains(last));
    }
}

/// Removing placeholders from a beginning of the list gives a beginning of what
/// is left of the whole list.
proof fn removal_keeps_beginnings(items: Seq<Item>, path: Seq<char>, n: int)
    requires
        0 <= n <= items.len(),
    ensures
        ({
            let part = without_placeholder(items.take(n), path);
            let all = without_placeholder(items, path);
            part.len() <= all.len() && part == all.take(part.len() as int)
        }),
    decreases items.len(),
{
    let part = without_placeholder(items.take(n), path);
    let all = without_placeholder(items, path);
    if n == items.len() {
        assert(items.take(n) =~= items);
        assert(part =~= all.take(part.len() as int));
    } else {
        let init = items.drop_last();
        assert(init.take(n) =~= items.take(n));
        removal_keeps_beginnings(init, path, n);
        assert(all.take(part.len() as int) =~= without_placeholder(init, path).take(
            part.len() as int,
        ));
    }
}

/// An item that is not a placeholder stands at its place among the others.
proof fn others_keep_their_place(items: Seq<Item>, path: Seq<char>, i: int)
    requires
        0 <= i < items.len(),
        !is_placeholder(items[i], path),
    ensures
        ({
            let k = place_among_others(items, path, i);
            let others = without_placeholder(items, path);
            0 <= k <= i && k < others.len() && others[k] == items[i]
        }),
{
    let upto = items.take(i + 1);
    assert(upto.drop_last() =~= items.take(i));
    assert(upto.last() == items[i]);
    let part = without_placeholder(upto, path);
    removal_keeps_beginnings(items, path, i + 1);
    assert(part.last() == items[i]);
    removal_is_shorter(items.take(i), path);
}

proof fn removal_is_shorter(items: Seq<Item>, path: Seq<char>)
    ensures
        without_placeholder(items, path).len() <= items.len(),
    decreases items.len(),
{
    if items.len() > 0 {
        removal_is_shorter(items.drop_last(), path);
    }
}

/// Different items have different places among the others.
proof fn others_have_different_places(items: Seq<Item>, path: Seq<char>, i: int, j: int)
    requires
        0 <= i < j < items.len(),
        !is_placeholder(items[i], path),
    ensures
        place_among_others(items, path, i) < place_among_others(items, path, j),
{
    let before = items.take(j);
    assert(before.take(i + 1) =~= items.take(i + 1));
    assert(items.take(i + 1).drop_last() =~= items.take(i));
    assert(items.take(i + 1).last() == items[i]);
    removal_keeps_beginnings(before, path, i + 1);
}

proof fn only_others_remain(items: Seq<Item>, path: Seq<char>)
    ensures
        forall|k: int|
            0 <= k < without_placeholder(items, path).len() ==> !is_placeholder(
                #[trigger] without_placeholder(items, path)[k],
                path,
            ),
    decreases items.len(),
{
    if items.len() > 0 {
        only_others_remain(items.drop_last(), path);
        let before = without_placeholder(items.drop_last(), path);
        let all = without_placeholder(items, path);
        assert forall|k: int| 0 <= k < all.len() implies !is_placeholder(#[trigger] all[k], path) by {
            if k < before.len() {
                assert(all[k] == before[k]);
            }
        }
    }
}

proof fn disk_is_found(items: Seq<Item>, path: Seq<char>, i: int)
    requires
        0 <= i < items.len() <= usize::MAX,
        same(items[i].disk(), path),
    ensures
        index_of_disk(items, path) is Some,
    decreases items.len(),
{
    if i < items.len() - 1 {
        disk_is_found(items.drop_last(), path, i);
    }
}

/// The list of an expansion is in sorted order.
proof fn expansion_is_sorted(old: Seq<Item>, path: Seq<char>, entries: Seq<Item>)
    ensures
        is_natural_order(
            sort_keys(opened_list(old, path, entries)),
            item_order(opened_list(old, path, entries)),
        ),
        is_sorted_list(opened_list(old, path, entries), expanded_list(old, path, entries)),
        expanded_list(old, path, entries).len() == opened_list(old, path, entries).len(),
{
    let keys = sort_keys(opened_list(old, path, entries));
    natural_order_exists(keys);
    let p = choose|p: Seq<int>| is_natural_order(keys, p);
    sorted_order_is(keys, p);
}

/// An expansion leaves every item but the placeholder in the list, and knows where
/// that very item is.
pub proof fn expansion_keeps_items(
    old: Seq<Item>,
    path: Seq<char>,
    entries: Seq<Item>,
    i: usize,
)
    requires
        old.len() + entries.len() <= usize::MAX,
        i < old.len(),
        !is_placeholder(old[i as int], path),
    ensures
        remapped(old, path, entries, i) matches Some(n) && n < expanded_list(
            old,
            path,
            entries,
        ).len() && expanded_list(old, path, entries)[n as int] == old[i as int],
{
    let list = opened_list(old, path, entries);
    let order = item_order(list);
    let k = place_among_others(old, path, i as int);
    expansion_is_sorted(old, path, entries);
    natural_order_is_permutation(sort_keys(list), order);
    others_keep_their_place(old, path, i as int);
    removal_is_shorter(old, path);
    assert(list[k] == old[i as int]);
    assert(order.contains(k));
    assert(order[order.index_of(k)] == k);
}

/// Different items stay different: no two old places go to the same new one.
pub proof fn expansion_separates_items(
    old: Seq<Item>,
    path: Seq<char>,
    entries: Seq<Item>,
    i: usize,
    j: usize,
)
    requires
        old.len() + entries.len() <= usize::MAX,
        i < old.len(),
        j < old.len(),
        i != j,
        !is_placeholder(old[i as int], path),
        !is_placeholder(old[j as int], path),
    ensures
        remapped(old, path, entries, i) != remapped(old, path, entries, j),
{
    let list = opened_list(old, path, entries);
    let order = item_order(list);
    let a = place_among_others(old, path, i as int);
    let b = place_among_others(old, path, j as int);
    expansion_is_sorted(old, path, entries);
    natural_order_is_permutation(sort_keys(list), order);
    others_keep_their_place(old, path, i as int);
    others_keep_their_place(old, path, j as int);
    removal_is_shorter(old, path);
    if i < j {
        others_have_different_places(old, path, i as int, j as int);
    } else {
        others_have_different_places(old, path, j as int, i as int);
    }
    assert(order.contains(a) && order.contains(b));
    assert(order[order.index_of(a)] == a && order[order.index_of(b)] == b);
}

/// After an expansion everything still refers to items of the list.
proof fn expansion_stays_in_list(s: BrowserModel, path: Seq<char>, entries: Seq<Item>)
    requires
        s.wf(),
        2 * (s.items.len() + entries.len()) <= usize::MAX,
    ensures
        s.after_expansion(path, entries).wf(),
{
    let old = s.items;
    let after = s.after_expansion(path, entries);
    let next = after.items;
    expansion_is_sorted(old, path, entries);
    removal_is_shorter(old, path);
    index_of_disk_in_range(next, path);
    if s.current < old.len() && !is_placeholder(old[s.current as int], path) {
        expansion_keeps_items(old, path, entries, s.current);
    }
    assert forall|n: usize| #[trigger] after.deleted.contains(n) implies n < next.len() by {
        let i = choose|i: usize| #[trigger]
            s.deleted.contains(i) && remapped(old, path, entries, i) == Some(n);
        expansion_keeps_items(old, path, entries, i);
    }
    if s.video is Some {
        let i = s.video.unwrap().0;
        if !is_placeholder(old[i as int], path) {
            expansion_keeps_items(old, path, entries, i);
        }
    }
    assert(after.deleted.finite()) by {
        let ints = vstd::set_lib::set_int_range(0, next.len() as int);
        vstd::set_lib::lemma_int_range(0, next.len() as int);
        let all = ints.map(|k: int| k as usize);
        ints.lemma_map_finite(|k: int| k as usize);
        assert(after.deleted.subset_of(all)) by {
            assert forall|n: usize| after.deleted.contains(n) implies all.contains(n) by {
                assert(ints.contains(n as int));
            }
        }
        vstd::set_lib::lemma_set_subset_finite(all, after.deleted);
    }
}

/// An expansion leaves the item on screen in view: unless it was the placeholder,
/// that very item is the current one afterwards. An item is trashed afterwards if
/// and only if it was before, and an open video stays with its item.
pub proof fn expansion_keeps_view(s: BrowserModel, path: Seq<char>, entries: Seq<Item>)
    requires
        s.wf(),
        2 * (s.items.len() + entries.len()) <= usize::MAX,
    ensures
        ({
            let after = s.after_expansion(path, entries);
            &&& s.count() > 0 && !is_placeholder(s.items[s.current as int], path) ==> after.current
                < after.count() && after.items[after.current as int]
                == s.items[s.current as int] && remapped(s.items, path, entries, s.current) == Some(
                after.current,
            )
            &&& forall|i: usize|
                i < s.count() && !is_placeholder(s.items[i as int], path) ==> (
                #[trigger] s.deleted.contains(i) <==> after.deleted.contains(
                    remapped(s.items, path, entries, i).unwrap(),
                ))
            &&& s.video matches Some(v) ==> !is_placeholder(s.items[v.0 as int], path) ==> (
            after.video matches Some(w) && w.1 == v.1 && after.items[w.0 as int]
                == s.items[v.0 as int])
        }),
{
    let old = s.items;
    let after = s.after_expansion(path, entries);
    if s.count() > 0 && !is_placeholder(old[s.current as int], path) {
        expansion_keeps_items(old, path, entries, s.current);
    }
    assert forall|i: usize| i < s.count() && !is_placeholder(old[i as int], path) implies (
    #[trigger] s.deleted.contains(i) <==> after.deleted.contains(
        remapped(old, path, entries, i).unwrap(),
    )) by {
        let n = remapped(old, path, entries, i).unwrap();
        if after.deleted.contains(n) {
            let j = choose|j: usize| #[trigger]
                s.deleted.contains(j) && remapped(old, path, entries, j) == Some(n);
            if j != i {
                expansion_separates_items(old, path, entries, i, j);
            }
        }
    }
    if s.video is Some {
        let i = s.video.unwrap().0;
        if !is_placeholder(old[i as int], path) {
            expansion_keeps_items(old, path, entries, i);
        }
    }
}

/// Expanding the placeholder on screen lands on the first entry of the archive or
/// PDF just opened, if it has any.
pub proof fn expansion_lands_on_first_entry(
    s: BrowserModel,
    path: Seq<char>,
    entries: Seq<Item>,
    e: int,
)
    requires
        s.wf(),
        s.items.len() + entries.len() <= usize::MAX,
        s.count() > 0,
        is_placeholder(s.items[s.current as int], path),
        0 <= e < entries.len(),
        same(entries[e].disk(), path),
    ensures
        ({
            let after = s.after_expansion(path, entries);
            &&& after.current < after.count()
            &&& same(after.items[after.current as int].disk(), path)
            &&& forall|k: int|
                0 <= k < after.current ==> !same(#[trigger] after.items[k].disk(), path)
        }),
{
    let others = without_placeholder(s.items, path);
    let list = opened_list(s.items, path, entries);
    let next = expanded_list(s.items, path, entries);
    expansion_is_sorted(s.items, path, entries);
    removal_is_shorter(s.items, path);
    sorting_keeps_items(list, next);
    assert(list[others.len() + e] == entries[e]);
    assert(next.contains(entries[e]));
    let n = choose|n: int| 0 <= n < next.len() && next[n] == entries[e];
    disk_is_found(next, path, n);
    index_of_disk_in_range(next, path);
}

/// An expanded placeholder does not come back: nothing in the new list is a
/// placeholder of that path, unless the entries hold one.
pub proof fn expansion_removes_placeholder(
    items: Seq<Item>,
    path: Seq<char>,
    entries: Seq<Item>,
)
    requires
        forall|e: int| 0 <= e < entries.len() ==> !is_placeholder(#[trigger] entries[e], path),
    ensures
        forall|k: int|
            0 <= k < expanded_list(items, path, entries).len() ==> !is_placeholder(
                #[trigger] expanded_list(items, path, entries)[k],
                path,
            ),
{
    let others = without_placeholder(items, path);
    let all = opened_list(items, path, entries);
    let next = expanded_list(items, path, entries);
    only_others_remain(items, path);
    expansion_is_sorted(items, path, entries);
    sorting_keeps_items(all, next);
    assert forall|k: int| 0 <= k < next.len() implies !is_placeholder(#[trigger] next[k], path) by {
        assert(all.contains(next[k]));
        let j = choose|j: int| 0 <= j < all.len() && all[j] == next[k];
        if j < others.len() {
            assert(all[j] == others[j]);
        } else {
            assert(all[j] == entries[j - others.len()]);
        }
    }
}

/// No archive or PDF is read twice at a time: what is asked for was not being
/// read, and is being read afterwards.
pub proof fn containers_are_read_once(
    items: Seq<Item>,
    expanding: Set<Seq<char>>,
    near: Seq<int>,
)
    ensures
        ({
            let (paths, reading) = expansions(items, expanding, near);
            &&& expanding.subset_of(reading)
            &&& forall|j: int|
                0 <= j < paths.len() ==> !expanding.contains(normal(#[trigger] paths[j]))
                    && reading.contains(normal(paths[j]))
            &&& forall|j: int, k: int|
                0 <= j < k < paths.len() ==> normal(#[trigger] paths[j]) != normal(
                    #[trigger] paths[k],
                )
        }),
    decreases near.len(),
{
    if near.len() > 0 {
        containers_are_read_once(items, expanding, near.drop_last());
    }
}

/// The entries of an archive and the pages of a PDF sort behind the placeholder's
/// place: after the path of the file itself, in whatever case it is written.
pub proof fn entries_follow_their_container(entry: Item, container: Item)
    requires
        entry is Archived || entry is Pdf,
        container is Container,
        entry.disk() == container.disk(),
    ensures
        natural_rank(container.key(), entry.key()) == Rank::Before,
{
    reveal_strlit("/");
    let disk = container.disk();
    let tail = match entry {
        Item::Archived { entry, .. } => "/"@ + entry@,
        Item::Pdf { inner: Some(e), name, .. } => "/"@ + e@ + "/"@ + name@,
        Item::Pdf { name, .. } => "/"@ + name@,
        _ => Seq::empty(),
    };
    assert(tail[0] == '/');
    assert(entry.key() =~= lower(disk) + lower(tail));
    assert(lower(tail)[0] == '/');
    continuation_comes_after(lower(disk), lower(tail));
}

/// What can happen to the view in one frame.
pub enum Event {
    Opened,
    Scanned { items: Seq<Item>, root: Seq<char> },
    Expanded { path: Seq<char>, entries: Seq<Item> },
    Trashed,
    Keys(NavigationKeys),
    Approached,
    Titled,
    WindowKeys { toggle: bool, escape: bool },
    Turned { clockwise: bool, counterclockwise: bool, upright: bool },
    ZoomReset,
    VideoClosed(Clock),
    VideoOpened,
    VideoFailed(Seq<char>),
    Played(VideoPlayer),
}

impl BrowserModel {
    /// Whether an event is handled: those that are about the current item need
    /// one, and lists have a length that can be counted.
    pub open spec fn handles(self, e: Event) -> bool {
        match e {
            Event::Scanned { items, .. } => 2 * items.len() <= usize::MAX,
            Event::Expanded { entries, .. } => 2 * (self.items.len() + entries.len())
                <= usize::MAX,
            Event::Trashed => self.count() > 0,
            Event::Keys(_) => self.count() > 0,
            Event::Titled => self.count() > 0,
            Event::VideoClosed(_) => self.count() > 0,
            Event::VideoOpened => self.count() > 0,
            _ => true,
        }
    }

    /// The state after an event.
    pub open spec fn after(self, e: Event) -> BrowserModel {
        match e {
            Event::Opened => self.after_opening(),
            Event::Scanned { items, root } => self.after_scan(items, root),
            Event::Expanded { path, entries } => self.after_expansion(path, entries),
            Event::Trashed => self.after_trash(),
            Event::Keys(keys) => self.after_keys(keys).0,
            Event::Approached => self.after_approach().0,
            Event::Titled => self.after_title(),
            Event::WindowKeys { toggle, escape } => self.after_window_keys(toggle, escape).0,
            Event::Turned { clockwise, counterclockwise, upright } => self.after_turn(
                clockwise,
                counterclockwise,
                upright,
            ),
            Event::ZoomReset => self.after_reset(),
            Event::VideoClosed(clock) => self.after_closing(clock),
            Event::VideoOpened => self.after_video_opened(),
            Event::VideoFailed(reason) => self.after_video_failed(reason),
            Event::Played(player) => self.after_playing(player),
        }
    }

    /// Whether the events of a frame are handled one after the other.
    pub open spec fn handles_all(self, events: Seq<Event>) -> bool
        decreases events.len(),
    {
        events.len() == 0 || (self.handles_all(events.drop_last()) && self.after_all(
            events.drop_last(),
        ).handles(events.last()))
    }

    /// The state after the events of a frame.
    pub open spec fn after_all(self, events: Seq<Event>) -> BrowserModel
        decreases events.len(),
    {
        if events.len() == 0 {
            self
        } else {
            self.after_all(events.drop_last()).after(events.last())
        }
    }
}

/// A neighbour is a place of the list.
proof fn neighbor_is_in_list(s: BrowserModel, start: int, forward: bool)
    requires
        s.wf(),
    ensures
        s.neighbor_of(start, forward) matches Some(i) ==> i < s.count(),
{
    if s.count() > 0 {
        kept_place_is_in_list(s.deleted, start, forward, 1, s.count());
    }
}

proof fn kept_place_is_in_list(deleted: Set<usize>, start: int, forward: bool, k: int, n: int)
    requires
        0 < n <= usize::MAX,
    ensures
        first_kept(deleted, start, forward, k, n) matches Some(i) ==> i < n,
    decreases n + 1 - k,
{
    if k <= n {
        vstd::arithmetic::div_mod::lemma_mod_bound(start + k, n);
        vstd::arithmetic::div_mod::lemma_mod_bound(start - k, n);
        kept_place_is_in_list(deleted, start, forward, k + 1, n);
    }
}

/// Whatever happens, the current item stays in the list, and the workers see the
/// view as it is.
proof fn event_keeps_view_consistent(s: BrowserModel, e: Event)
    requires
        s.wf(),
        s.handles(e),
    ensures
        s.after(e).wf(),
{
    match e {
        Event::Expanded { path, entries } => {
            expansion_stays_in_list(s, path, entries);
        },
        Event::Trashed => {
            let gone = BrowserModel { deleted: s.deleted.insert(s.current), ..s };
            neighbor_is_in_list(gone, s.current as int, true);
        },
        Event::Keys(keys) => {
            neighbor_is_in_list(s, s.current as int, true);
            let n0 = s.neighbor_of(s.current as int, true);
            let s1 = if keys.right && n0 is Some {
                s.at(n0.unwrap())
            } else {
                s
            };
            neighbor_is_in_list(s1.announced(), s1.current as int, false);
            let n1 = s1.neighbor_of(s1.current as int, false);
            let s2 = if !keys.command && (keys.left || keys.backspace) && n1 is Some {
                s1.at(n1.unwrap())
            } else {
                s1
            };
            neighbor_is_in_list(s2.announced(), s2.current as int, true);
        },
        _ => {},
    }
}

/// Over a whole frame, whatever was pressed, scanned, expanded or trashed in it and
/// in whatever order: the workers see the current item and the number of items,
/// and the current item is in the list.
pub proof fn frame_keeps_view_consistent(s: BrowserModel, events: Seq<Event>)
    requires
        s.wf(),
        s.handles_all(events),
    ensures
        ({
            let t = s.after_all(events);
            &&& t.wf()
            &&& t.shared.current_idx == t.current
            &&& t.shared.image_count == t.count()
            &&& t.count() == 0 || t.current < t.count()
        }),
    decreases events.len(),
{
    if events.len() > 0 {
        frame_keeps_view_consistent(s, events.drop_last());
        event_keeps_view_consistent(s.after_all(events.drop_last()), events.last());
    }
}

/// Place `k` steps ahead of, or behind, `start` in a ring of `n` places.
pub open spec fn step_from(start: int, ahead: bool, k: int, n: int) -> usize {
    (if ahead {
        (start + k) % n
    } else {
        (start - k) % n
    }) as usize
}

/// Whether `i` is the nearest place that is not trashed, going from `start`: it is some
/// steps away, and all places passed on the way to it are trashed.
pub open spec fn is_nearest(deleted: Set<usize>, start: int, ahead: bool, n: int, i: usize) -> bool {
    exists|k: int|
        1 <= k <= n && i == #[trigger] step_from(start, ahead, k, n) && !deleted.contains(i) && (
        forall|j: int| 1 <= j < k ==> deleted.contains(#[trigger] step_from(start, ahead, j, n)))
}

proof fn first_kept_is_nearest(deleted: Set<usize>, start: int, ahead: bool, k: int, n: int)
    requires
        1 <= k,
        0 < n <= usize::MAX,
        forall|j: int| 1 <= j < k ==> deleted.contains(#[trigger] step_from(start, ahead, j, n)),
    ensures
        first_kept(deleted, start, ahead, k, n) matches Some(i) ==> is_nearest(
            deleted,
            start,
            ahead,
            n,
            i,
        ),
    decreases n + 1 - k,
{
    if k <= n {
        let here = step_from(start, ahead, k, n);
        assert(here == place_at(start, ahead, k, n) as usize);
        if deleted.contains(here) {
            first_kept_is_nearest(deleted, start, ahead, k + 1, n);
        }
    }
}

/// The neighbour of a place is the nearest one that is not trashed, in the given direction
/// and around the end of the list; where everything is trashed there is none.
pub proof fn neighbor_is_the_nearest_kept(s: BrowserModel, start: int, ahead: bool)
    requires
        s.wf(),
        s.count() > 0,
        0 <= start < s.count(),
    ensures
        (exists|i: usize| i < s.count() && !#[trigger] s.deleted.contains(i)) ==> (s.neighbor_of(
            start,
            ahead,
        ) matches Some(i) && i < s.count() && is_nearest(s.deleted, start, ahead, s.count(), i)),
        (forall|i: usize| i < s.count() ==> #[trigger] s.deleted.contains(i)) ==> s.neighbor_of(
            start,
            ahead,
        ) is None,
{
    neighbor_exists_unless_all_trashed(s, start, ahead);
    neighbor_is_in_list(s, start, ahead);
    first_kept_is_nearest(s.deleted, start, ahead, 1, s.count());
}

/// The state of which only the place of the view has changed; a view that moves stands
/// upright, and the workers follow it.
pub open spec fn moved_view(s: BrowserModel, to: usize) -> BrowserModel {
    BrowserModel {
        current: to,
        rotation: 0,
        shared: Shared { current_idx: to, image_count: s.shared.image_count },
        ..s
    }
}

/// With one key alone the view moves to the nearest item that is not trashed: ahead with the
/// right arrow, and with space unless a video is on screen; back with the left arrow or
/// Backspace, unless the command key is held. Nothing else plays a part, an open video
/// included, and nothing else changes.
pub proof fn one_key_moves_to_the_nearest(s: BrowserModel, keys: NavigationKeys, ahead: bool)
    requires
        s.wf(),
        s.count() > 0,
        exists|i: usize| i < s.count() && !#[trigger] s.deleted.contains(i),
        ahead ==> !keys.left && !keys.backspace && keys.right != keys.space && (keys.space
            ==> !video_path(s.items[s.current as int].media())),
        !ahead ==> !keys.right && !keys.space && !keys.command && (keys.left || keys.backspace),
    ensures
        ({
            let (after, moved) = s.after_keys(keys);
            &&& moved
            &&& after.current < s.count()
            &&& is_nearest(s.deleted, s.current as int, ahead, s.count(), after.current)
            &&& after == moved_view(s, after.current)
        }),
{
    neighbor_is_the_nearest_kept(s, s.current as int, ahead);
}

/// Without a key, with Backspace under the command key, with space on a video, or with
/// everything trashed, the view stays and nothing changes.
pub proof fn view_stays_otherwise(s: BrowserModel, keys: NavigationKeys)
    requires
        s.wf(),
        s.count() > 0,
        ({
            let all_trashed = forall|i: usize| i < s.count() ==> #[trigger] s.deleted.contains(i);
            all_trashed || (!keys.right && ((!keys.left && !keys.backspace) || keys.command) && (
            !keys.space || video_path(s.items[s.current as int].media())))
        }),
    ensures
        s.after_keys(keys) == (s, false),
{
    if forall|i: usize| i < s.count() ==> #[trigger] s.deleted.contains(i) {
        neighbor_is_the_nearest_kept(s, s.current as int, true);
        neighbor_is_the_nearest_kept(s, s.current as int, false);
    }
}

/// Keys pressed together move one after the other: ahead, back, and on with space.
pub proof fn keys_move_in_turn(s: BrowserModel, keys: NavigationKeys)
    requires
        s.wf(),
        s.count() > 0,
    ensures
        ({
            let a = s.after_keys(
                NavigationKeys { left: false, backspace: false, space: false, ..keys },
            );
            let b = a.0.after_keys(NavigationKeys { right: false, space: false, ..keys });
            let c = b.0.after_keys(
                NavigationKeys { right: false, left: false, backspace: false, ..keys },
            );
            s.after_keys(keys) == (c.0, a.1 || b.1 || c.1)
        }),
{
}

/// Going ahead and back again returns to an item that is not trashed.
pub proof fn back_undoes_ahead(s: BrowserModel, right: NavigationKeys, left: NavigationKeys)
    requires
        s.wf(),
        s.count() > 0,
        !s.deleted.contains(s.current),
        right.right && !right.left && !right.backspace && !right.space,
        left.left && !left.right && !left.space && !left.command,
    ensures
        s.after_keys(right).0.after_keys(left).0.current == s.current,
{
    let n = s.count();
    let a = s.after_keys(right).0;
    one_key_moves_to_the_nearest(s, right, true);
    one_key_moves_to_the_nearest(a, left, false);
    let b = a.after_keys(left).0;
    let k = choose|k: int|
        1 <= k <= n && a.current == #[trigger] step_from(s.current as int, true, k, n)
            && !s.deleted.contains(a.current) && (forall|j: int|
            1 <= j < k ==> s.deleted.contains(#[trigger] step_from(s.current as int, true, j, n)));
    let m = choose|m: int|
        1 <= m <= n && b.current == #[trigger] step_from(a.current as int, false, m, n)
            && !s.deleted.contains(b.current) && (forall|j: int|
            1 <= j < m ==> s.deleted.contains(#[trigger] step_from(a.current as int, false, j, n)));
    steps_return(s.current as int, k, k, n);
    if m < k {
        steps_return(s.current as int, k, m, n);
        assert(b.current == step_from(s.current as int, true, k - m, n));
        assert(s.deleted.contains(step_from(s.current as int, true, k - m, n)));
    } else if m > k {
        assert(s.deleted.contains(step_from(a.current as int, false, k, n)));
    }
}

/// `k` steps ahead and `m` of them back are the others ahead.
proof fn steps_return(start: int, k: int, m: int, n: int)
    requires
        0 <= start < n <= usize::MAX,
        1 <= m <= k <= n,
    ensures
        step_from(step_from(start, true, k, n) as int, false, m, n) == step_from(
            start,
            true,
            k - m,
            n,
        ),
        m == k ==> step_from(start, true, k - m, n) == start,
{
    vstd::arithmetic::div_mod::lemma_mod_bound(start + k, n);
    vstd::arithmetic::div_mod::lemma_sub_mod_noop_right(-m, -(start + k), n);
    vstd::arithmetic::div_mod::lemma_sub_mod_noop(start + k, m, n);
    vstd::arithmetic::div_mod::lemma_mod_bound(start + k - m, n);
    vstd::arithmetic::div_mod::lemma_small_mod(start as nat, n as nat);
    let a = (start + k) % n;
    vstd::arithmetic::div_mod::lemma_fundamental_div_mod(start + k, n);
    let q = (start + k) / n;
    assert(a - m == (start + k - m) - n * q);
    vstd::arithmetic::div_mod::lemma_mod_multiples_vanish(-q, start + k - m, n);
    assert(n * (-q) + (start + k - m) == a - m) by (nonlinear_arith)
        requires
            a - m == (start + k - m) - n * q,
    ;
}

/// Trashing takes exactly the item on screen out of the way and goes on to the nearest one
/// ahead that is left, or stays if none is; a video that was playing there is closed, and
/// nothing else changes.
pub proof fn trashing_goes_on_to_the_next(s: BrowserModel, i: usize)
    requires
        s.wf(),
        s.count() > 0,
    ensures
        ({
            let after = s.after_trash();
            let left = exists|j: usize|
                j < s.count() && j != s.current && !#[trigger] s.deleted.contains(j);
            let played = s.video matches Some(v) && v.0 == s.current;
            &&& after.deleted.contains(i) <==> s.deleted.contains(i) || i == s.current
            &&& left <==> s.trash_moves()
            &&& left ==> after.current < s.count() && is_nearest(
                after.deleted,
                s.current as int,
                true,
                s.count(),
                after.current,
            ) && after.rotation == 0 && after.shared.current_idx == after.current
            &&& !left ==> after.current == s.current && after.rotation == s.rotation
                && after.shared == s.shared
            &&& played ==> after.video is None && after.video_error is None
            &&& !played ==> after.video == s.video && after.video_error == s.video_error
            &&& after == (BrowserModel {
                deleted: after.deleted,
                current: after.current,
                rotation: after.rotation,
                video: after.video,
                video_error: after.video_error,
                shared: Shared {
                    current_idx: after.shared.current_idx,
                    image_count: s.shared.image_count,
                },
                ..s
            })
        }),
{
    let played = s.video matches Some(v) && v.0 == s.current;
    let gone = BrowserModel {
        deleted: s.deleted.insert(s.current),
        video: if played {
            None
        } else {
            s.video
        },
        video_error: if played {
            None
        } else {
            s.video_error
        },
        ..s
    };
    assert(gone.wf());
    let moved = BrowserModel { deleted: s.deleted.insert(s.current), ..s };
    assert(gone.neighbor_of(s.current as int, true) == moved.neighbor_of(s.current as int, true));
    neighbor_is_the_nearest_kept(gone, s.current as int, true);
    if exists|j: usize| j < s.count() && j != s.current && !#[trigger] s.deleted.contains(j) {
        let j = choose|j: usize|
            j < s.count() && j != s.current && !#[trigger] s.deleted.contains(j);
        assert(!gone.deleted.contains(j));
    }
}

/// Only a plain file that is not trashed yet is ever moved to the Trash, and it is that very
/// file. What is inside an archive or a PDF is refused, under its title; a placeholder, an
/// item already trashed or an empty list are left alone.
pub proof fn only_plain_files_go_to_the_trash(s: BrowserModel)
    requires
        s.wf(),
    ensures
        s.deletion() is Trash <==> s.count() > 0 && !s.deleted.contains(s.current)
            && s.items[s.current as int] is File,
        s.deletion() is Refused <==> s.count() > 0 && !s.deleted.contains(s.current) && (
        s.items[s.current as int] is Archived || s.items[s.current as int] is Pdf),
        s.deletion() matches DeleteModel::Trash(path) ==> (s.items[s.current as int] matches Item::File(
            p,
        ) && path == p@),
        s.deletion() matches DeleteModel::Refused(title) ==> title
            == s.items[s.current as int].title(s.root),
{
}

/// There is nothing to show exactly if every item is trashed, or there is none; what is said
/// then depends on whether a scan is running.
pub proof fn blank_means_nothing_left(s: BrowserModel)
    requires
        s.wf(),
    ensures
        s.blank_text() is Some <==> forall|i: usize| i < s.count() ==> #[trigger] s.deleted.contains(i),
        s.blank_text() matches Some(text) ==> text == (if s.scanning {
            "Scanning\u{2026}"@
        } else {
            "No images found \u{2014} press N to open"@
        }),
{
    trashed_items_are_counted(s);
    neighbor_exists_unless_all_trashed(s, s.current as int, true);
    if s.count() > 0 && s.deleted.len() == s.count() {
        assert(s.neighbor_of(s.current as int, true) is None);
    }
    if s.count() > 0 && (forall|i: usize| i < s.count() ==> #[trigger] s.deleted.contains(i)) {
        if s.deleted.len() < s.count() {
            some_kept(s.deleted, s.count());
        }
    }
}

/// The places up to and with `upto` that are not trashed.
pub open spec fn kept_places(deleted: Set<usize>, upto: int) -> Set<usize> {
    Set::new(|i: usize| i <= upto && !deleted.contains(i))
}

proof fn kept_among_counts_places(deleted: Set<usize>, n: int)
    requires
        0 <= n <= usize::MAX,
    ensures
        kept_places(deleted, n - 1).finite(),
        kept_places(deleted, n - 1).len() == kept_among(deleted, n),
    decreases n,
{
    let now = kept_places(deleted, n - 1);
    if n == 0 {
        assert(now =~= Set::empty());
    } else {
        kept_among_counts_places(deleted, n - 1);
        let before = kept_places(deleted, n - 2);
        let last = (n - 1) as usize;
        if deleted.contains(last) {
            assert(now =~= before);
        } else {
            assert(now =~= before.insert(last));
            assert(!before.contains(last));
        }
    }
}

/// The title counts the items that are not trashed: the first number is how many of them
/// there are up to the one on screen, the second how many there are at all, and then comes
/// the item's own title.
pub proof fn title_counts_what_is_left(s: BrowserModel)
    requires
        s.wf(),
        s.count() > 0,
    ensures
        s.title() == "["@ + decimal(kept_places(s.deleted, s.current as int).len()) + "/"@
            + decimal(kept_places(s.deleted, s.count() - 1).len()) + "] "@
            + s.items[s.current as int].title(s.root) + " - Kagami"@,
        s.after_title() == (BrowserModel { titled: Some(s.current), ..s }),
{
    trashed_items_are_counted(s);
    kept_among_counts_places(s.deleted, s.current + 1);
    kept_among_counts_places(s.deleted, s.count());
}

/// Whether item `i` is close enough for its container to be read: on screen, up to three
/// places ahead, or one behind.
pub open spec fn is_approached(s: BrowserModel, i: int) -> bool {
    0 <= i < s.count() && (i == s.current || (i - s.current) % s.count() <= 3 || (s.current - i)
        % s.count() <= 1)
}

/// The archives and PDFs that the view has come near are read, each that is not being read
/// yet, and no others; from then on they are being read.
pub proof fn approached_containers_are_read(s: BrowserModel)
    requires
        s.wf(),
        s.count() > 0,
    ensures
        ({
            let (after, paths) = s.after_approach();
            &&& forall|i: int| #[trigger]
                is_approached(s, i) ==> (s.items[i] matches Item::Container { path }
                    ==> after.expanding.contains(normal(path@)))
            &&& forall|j: int|
                0 <= j < paths.len() ==> !s.expanding.contains(normal(#[trigger] paths[j]))
                    && after.expanding.contains(normal(paths[j])) && exists|i: int| #[trigger]
                    is_approached(s, i) && (s.items[i] matches Item::Container { path } && path@
                        == paths[j])
            &&& forall|x: Seq<char>| #[trigger]
                after.expanding.contains(x) <==> s.expanding.contains(x) || exists|j: int|
                    0 <= j < paths.len() && normal(#[trigger] paths[j]) == x
            &&& after == (BrowserModel { expanding: after.expanding, ..s })
        }),
{
    let n = s.count();
    let cur = s.current as int;
    let win = window(cur, n, EXPAND_AHEAD as int, EXPAND_BEHIND as int);
    let near = win.push(cur);
    window_covers_reach(cur, n, EXPAND_AHEAD as int, EXPAND_BEHIND as int);
    assert forall|i: int| #[trigger] is_approached(s, i) <==> near.contains(i) by {
        if win.contains(i) {
            let j = choose|j: int| 0 <= j < win.len() && win[j] == i;
            assert(near[j] == i);
        }
        if i == cur {
            assert(near[win.len() as int] == i);
        }
        if near.contains(i) {
            let j = choose|j: int| 0 <= j < near.len() && near[j] == i;
            if j < win.len() {
                assert(win[j] == i);
            }
        }
    }
    expansions_facts(s.items, s.expanding, near);
    let (after, paths) = s.after_approach();
    assert forall|j: int| 0 <= j < paths.len() implies exists|i: int| #[trigger]
        is_approached(s, i) && (s.items[i] matches Item::Container { path } && path@
            == #[trigger] paths[j]) by {
        let i = choose|i: int| #[trigger]
            near.contains(i) && (s.items[i] matches Item::Container { path } && path@ == paths[j]);
        assert(is_approached(s, i));
    }
}

proof fn expansions_facts(items: Seq<Item>, expanding: Set<Seq<char>>, near: Seq<int>)
    ensures
        ({
            let (paths, reading) = expansions(items, expanding, near);
            &&& forall|i: int| #[trigger]
                near.contains(i) ==> (items[i] matches Item::Container { path }
                    ==> reading.contains(normal(path@)))
            &&& forall|j: int|
                0 <= j < paths.len() ==> !expanding.contains(normal(#[trigger] paths[j]))
                    && reading.contains(normal(paths[j])) && exists|i: int| #[trigger]
                    near.contains(i) && (items[i] matches Item::Container { path } && path@
                        == paths[j])
            &&& forall|x: Seq<char>| #[trigger]
                reading.contains(x) <==> expanding.contains(x) || exists|j: int|
                    0 <= j < paths.len() && normal(#[trigger] paths[j]) == x
        }),
    decreases near.len(),
{
    if near.len() > 0 {
        let init = near.drop_last();
        expansions_facts(items, expanding, init);
        let (old_paths, old_reading) = expansions(items, expanding, init);
        let (paths, reading) = expansions(items, expanding, near);
        let last = near.last();
        assert(near[near.len() - 1] == last);
        assert forall|i: int| #[trigger] near.contains(i) <==> init.contains(i) || i == last by {
            if init.contains(i) {
                let j = choose|j: int| 0 <= j < init.len() && init[j] == i;
                assert(near[j] == i);
            }
            if near.contains(i) {
                let j = choose|j: int| 0 <= j < near.len() && near[j] == i;
                if j < init.len() {
                    assert(init[j] == i);
                }
            }
        }
        assert forall|j: int| 0 <= j < paths.len() implies !expanding.contains(
            normal(#[trigger] paths[j]),
        ) && reading.contains(normal(paths[j])) && exists|i: int| #[trigger]
            near.contains(i) && (items[i] matches Item::Container { path } && path@ == paths[j]) by {
            if j < old_paths.len() {
                assert(paths[j] == old_paths[j]);
                let i = choose|i: int| #[trigger]
                    init.contains(i) && (items[i] matches Item::Container { path } && path@
                        == old_paths[j]);
                assert(near.contains(i));
            } else {
                assert(near.contains(last));
            }
        }
        assert forall|x: Seq<char>| #[trigger] reading.contains(x) <==> expanding.contains(x)
            || exists|j: int| 0 <= j < paths.len() && normal(#[trigger] paths[j]) == x by {
            if old_reading.contains(x) && !expanding.contains(x) {
                let j = choose|j: int|
                    0 <= j < old_paths.len() && normal(#[trigger] old_paths[j]) == x;
                assert(paths[j] == old_paths[j]);
            }
            if reading.contains(x) && !old_reading.contains(x) {
                assert(normal(paths[old_paths.len() as int]) == x);
            }
            if exists|j: int| 0 <= j < paths.len() && normal(#[trigger] paths[j]) == x {
                let j = choose|j: int| 0 <= j < paths.len() && normal(#[trigger] paths[j]) == x;
                if j < old_paths.len() {
                    assert(paths[j] == old_paths[j]);
                }
            }
        }
    }
}

/// An expansion is over once it has been folded in: its archive or PDF is no longer being
/// read, the others still are, and the title is shown anew.
pub proof fn expansion_is_over(s: BrowserModel, path: Seq<char>, entries: Seq<Item>, other: Seq<char>)
    ensures
        !s.after_expansion(path, entries).expanding.contains(normal(path)),
        other != normal(path) ==> (s.after_expansion(path, entries).expanding.contains(other)
            <==> s.expanding.contains(other)),
        s.after_expansion(path, entries).titled is None,
        s.after_expansion(path, entries).rotation == s.rotation,
        s.after_expansion(path, entries).positions == s.positions,
        s.after_expansion(path, entries).root == s.root,
        s.after_expansion(path, entries).fullscreen == s.fullscreen,
        s.after_expansion(path, entries).scanning == s.scanning,
        s.after_expansion(path, entries).video_error == s.video_error,
{
}

/// The list after an expansion: every item that was there but the placeholder, and every
/// entry, each as often as before, and nothing else; none stands before one that belongs in
/// front of it.
pub proof fn expansion_adds_the_entries(old: Seq<Item>, path: Seq<char>, entries: Seq<Item>)
    ensures
        expanded_list(old, path, entries).to_multiset() == old.filter(
            |it: Item| !(it matches Item::Container { path: p } && same(p@, path)),
        ).to_multiset().add(entries.to_multiset()),
        forall|i: int, j: int|
            0 <= i < j < expanded_list(old, path, entries).len() ==> natural_rank(
                (#[trigger] expanded_list(old, path, entries)[i]).key(),
                (#[trigger] expanded_list(old, path, entries)[j]).key(),
            ) != Rank::After,
{
    let list = opened_list(old, path, entries);
    let next = expanded_list(old, path, entries);
    expansion_is_sorted(old, path, entries);
    sorting_keeps_counts(list, next);
    sorting_keeps_items(list, next);
    others_are_filtered(old, path);
    vstd::seq_lib::lemma_multiset_commutative(without_placeholder(old, path), entries);
}

proof fn others_are_filtered(items: Seq<Item>, path: Seq<char>)
    ensures
        without_placeholder(items, path) == items.filter(
            |it: Item| !(it matches Item::Container { path: p } && same(p@, path)),
        ),
    decreases items.len(),
{
    reveal(Seq::filter);
    if items.len() > 0 {
        others_are_filtered(items.drop_last(), path);
    }
}

/// Opening a selection, and the end of its scan, start over: the first item is on screen,
/// upright, nothing is trashed, read or playing, no place in a video is remembered, and only
/// the window stays as it is. While the scan runs the list is empty.
pub proof fn another_selection_starts_over(s: BrowserModel, items: Seq<Item>, root: Seq<char>)
    ensures
        ({
            let scanned = s.after_scan(items, root);
            let opened = s.after_opening();
            &&& scanned.items == items
            &&& scanned.root == root
            &&& !scanned.scanning
            &&& opened.items.len() == 0
            &&& opened.root.len() == 0
            &&& opened.scanning
            &&& starts_over(s, scanned)
            &&& starts_over(s, opened)
        }),
{
}

/// Whether nothing has been done with a list.
pub open spec fn starts_over(before: BrowserModel, s: BrowserModel) -> bool {
    &&& s.current == 0
    &&& s.rotation == 0
    &&& s.titled is None
    &&& s.video is None
    &&& s.video_error is None
    &&& s.fullscreen == before.fullscreen
    &&& forall|i: usize| !s.deleted.contains(i)
    &&& forall|x: Seq<char>| !s.expanding.contains(x)
    &&& forall|k: (Seq<char>, Seq<char>)| !s.positions.contains_key(k)
}

/// The fullscreen keys switch fullscreen; Escape leaves it, or closes the window that is not
/// fullscreen; nothing else changes, and the window is told what it is to be.
pub proof fn fullscreen_keys_switch(s: BrowserModel, escape: bool)
    ensures
        s.after_window_keys(true, escape).0.fullscreen != s.fullscreen,
        s.after_window_keys(true, escape).1 == WindowAction::SetFullscreen(
            s.after_window_keys(true, escape).0.fullscreen,
        ),
        s.fullscreen ==> !s.after_window_keys(false, true).0.fullscreen && s.after_window_keys(
            false,
            true,
        ).1 == WindowAction::SetFullscreen(false),
        !s.fullscreen ==> s.after_window_keys(false, true) == (s, WindowAction::Close),
        s.after_window_keys(false, false) == (s, WindowAction::Nothing),
        s.after_window_keys(true, escape).0 == (BrowserModel {
            fullscreen: s.after_window_keys(true, escape).0.fullscreen,
            ..s
        }),
        s.fullscreen ==> s.after_window_keys(false, true).0 == (BrowserModel {
            fullscreen: false,
            ..s
        }),
{
}

/// The turn keys turn the image by a quarter each way, and undo each other; setting it
/// upright, or resetting the zoom, leaves no turn. Nothing else changes.
pub proof fn image_turns_by_quarters(s: BrowserModel, clockwise: bool, counterclockwise: bool)
    requires
        s.rotation < 4,
    ensures
        s.after_turn(true, false, false).rotation == (if s.rotation == 3 {
            0
        } else {
            s.rotation + 1
        }),
        s.after_turn(true, false, false).after_turn(false, true, false) == s,
        s.after_turn(false, true, false).after_turn(true, false, false) == s,
        s.after_turn(true, true, false) == s,
        s.after_turn(false, false, false) == s,
        s.after_turn(clockwise, counterclockwise, true) == (BrowserModel { rotation: 0, ..s }),
        s.after_reset() == (BrowserModel { rotation: 0, ..s }),
{
}

/// A turned image shows its corners one further on: with each quarter, what was at a corner
/// is at the next one clockwise.
pub proof fn corners_move_on(i: int, rotation: int)
    requires
        0 <= i < 4,
        0 <= rotation < 4,
    ensures
        0 <= corner_at(i, rotation) < 4,
        corner_at(i, 0) == i,
        corner_at((i + 1) % 4, rotation + 1) == corner_at(i, rotation),
{
}

/// An open video that is not the item on screen is closed, and where it was is remembered
/// under its item; one that is on screen stays. Nothing else is remembered or forgotten.
pub proof fn video_is_closed_when_left(s: BrowserModel, clock: Clock, key: (Seq<char>, Seq<char>))
    requires
        s.wf(),
        s.count() > 0,
    ensures
        ({
            let after = s.after_closing(clock);
            let watched = video_path(s.items[s.current as int].media());
            &&& s.video is None ==> after == s && !s.has_stale_video()
            &&& s.video matches Some(v) ==> {
                let left = v.0 != s.current || !watched;
                &&& left <==> s.has_stale_video()
                &&& !left ==> after == s
                &&& left ==> after.video is None && after.video_error is None
                    && after.positions.contains_key(position_key(s.items[v.0 as int]))
                    && after.positions[position_key(s.items[v.0 as int])] == v.1.headed(clock)
                &&& left && key != position_key(s.items[v.0 as int]) ==> (
                after.positions.contains_key(key) <==> s.positions.contains_key(key)) && (
                s.positions.contains_key(key) ==> after.positions[key] == s.positions[key])
            }
            &&& after == (BrowserModel {
                positions: after.positions,
                video: after.video,
                video_error: after.video_error,
                ..s
            })
        }),
{
}

/// Coming back to a video resumes where it was left, unless that was within its first
/// second; one that was never left starts at its beginning.
pub proof fn video_resumes_where_left(s: BrowserModel, clock: Clock)
    requires
        s.wf(),
        s.count() > 0,
        s.video is Some,
        s.has_stale_video(),
    ensures
        ({
            let v = s.video.unwrap();
            let back = (BrowserModel {
                current: v.0,
                ..s.after_closing(clock)
            }).after_video_opened();
            let at = v.1.headed(clock);
            &&& back.video matches Some(w) && w.0 == v.0 && w.1 == (VideoPlayer {
                resume_at: if at > 1000 {
                    Some(at)
                } else {
                    None
                },
                ..fresh_player()
            })
            &&& back.video_error is None
        }),
{
}

/// A video that is opened for the first time starts at its beginning, and nothing but the
/// video changes.
pub proof fn new_video_starts_at_its_beginning(s: BrowserModel, reason: Seq<char>)
    requires
        s.wf(),
        s.count() > 0,
    ensures
        s.after_video_opened() == (BrowserModel {
            video: s.after_video_opened().video,
            video_error: None,
            ..s
        }),
        !s.positions.contains_key(position_key(s.items[s.current as int]))
            ==> s.after_video_opened().video == Some((s.current, fresh_player())),
        s.after_video_failed(reason) == (BrowserModel {
            video_error: Some("Cannot play video: "@ + reason),
            ..s
        }),
        s.lacks_video() <==> video_path(s.items[s.current as int].media()) && s.video is None,
{
}

/// Textures are kept up to four places from the item on screen, the shorter way round.
pub proof fn near_textures_are_kept(s: BrowserModel, i: int)
    requires
        s.wf(),
        0 <= i < s.count(),
    ensures
        ({
            let apart = if i <= s.current {
                s.current - i
            } else {
                i - s.current
            };
            s.keeps(i) <==> apart <= 4 || s.count() - apart <= 4
        }),
{
    distance_is_the_shorter_way(i, s.current as int, s.count());
}

/// What a player does changes the player of the open video, and nothing else.
pub proof fn playing_changes_the_player_alone(s: BrowserModel, player: VideoPlayer)
    ensures
        s.video is None ==> s.after_playing(player) == s,
        s.video matches Some(v) ==> s.after_playing(player) == (BrowserModel {
            video: Some((v.0, player)),
            ..s
        }),
{
}

/// The title is set once for each item that is come to, and not again while it stays.
pub proof fn title_is_set_on_change(s: BrowserModel, i: usize)
    ensures
        s.titled is None ==> s.new_title() == Some(s.title()),
        s.titled matches Some(t) ==> (t != s.current ==> s.new_title() == Some(s.title())),
        s.titled == Some(s.current) ==> s.new_title() is None,
        s.after_title().new_title() is None,
        i != s.current ==> (BrowserModel { current: i, ..s.after_title() }).new_title() is Some,
{
}

} // verus!
