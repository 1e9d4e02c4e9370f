//! The background coordinator's rules: what to decode and what to download next,
//! given what is on screen, what is running and what has been done.

use crate::archive::Item;
use crate::media::{image_path, is_image_file};
use crate::path::{normal, normal_form};
use crate::video::{is_video_file, video_path};
use crate::window::{
    distance_is_the_shorter_way, places, ring_distance, window, window_begins_with_the_neighbors,
    window_covers_reach, window_indices, window_is_near,
};
use std::collections::{HashMap, HashSet};
use vstd::hash_set::StringHashSet;
use vstd::prelude::*;

verus! {

broadcast use vstd::std_specs::hash::group_hash_axioms;

// Image folders may live on a cloud drive, where a file is a placeholder until
// something reads it. The dominant cost is that download, so a wide window is
// downloaded ahead in the background, while the image on screen has first claim
// on bandwidth.
pub const HYDRATE_AHEAD: usize = 64;

pub const HYDRATE_BEHIND: usize = 64;

pub const HYDRATE_WORKERS: usize = 8;

// Decode only a small window around the current image; each decoded texture
// costs real memory.
pub const DECODE_AHEAD: usize = 3;

pub const DECODE_BEHIND: usize = 2;

/// The larger of the two decode distances.
pub const DECODE_REACH: usize = 3;

pub const DECODE_WORKERS: usize = 3;

pub const PRIORITY_WORKERS: usize = 2;

/// How many decodes run at once before no further look-ahead is started.
pub const MAX_DECODES: usize = 5;

pub const MAX_DECODE_RETRIES: usize = 3;

/// Outcome of a decode task, so that a real failure counts against the retry
/// budget, and an abort because the viewer navigated away does not.
#[derive(Clone, Copy, PartialEq, Eq, Structural)]
pub enum DecodeOutcome {
    Decoded,
    Failed,
    Aborted,
}

/// What the coordinator keeps in mind.
pub struct CoordModel {
    /// Files already pulled local, by the normal text of their paths.
    pub hydrated: Set<Seq<char>>,
    /// Files being pulled local.
    pub hydrating: Set<Seq<char>>,
    /// Items being decoded.
    pub decoding: Set<usize>,
    /// Items decoded and handed over.
    pub decoded: Set<usize>,
    /// How often the decode of an item has failed.
    pub failed: Map<usize, usize>,
}

impl CoordModel {
    pub open spec fn retries(self, i: usize) -> int {
        if self.failed.contains_key(i) {
            self.failed[i] as int
        } else {
            0
        }
    }

    /// All positions lie in a list of `count` items.
    pub open spec fn wf(self, count: int) -> bool {
        &&& self.hydrating.finite()
        &&& self.decoding.finite()
        &&& forall|i: usize| #[trigger] self.decoding.contains(i) ==> i < count
        &&& forall|i: usize| #[trigger] self.decoded.contains(i) ==> i < count
        &&& forall|i: usize| #[trigger] self.failed.contains_key(i) ==> i < count
    }

    /// No decode is tried once it has failed too often.
    pub open spec fn in_budget(self) -> bool {
        &&& forall|i: usize| #[trigger] self.retries(i) <= MAX_DECODE_RETRIES
        &&& forall|i: usize| #[trigger]
            self.decoding.contains(i) ==> self.retries(i) < MAX_DECODE_RETRIES
    }

    /// The state once a download has ended.
    pub open spec fn after_hydrate(self, path: Seq<char>, ok: bool) -> CoordModel {
        CoordModel {
            hydrating: self.hydrating.remove(normal(path)),
            hydrated: if ok {
                self.hydrated.insert(normal(path))
            } else {
                self.hydrated
            },
            ..self
        }
    }

    /// The state once a decode has ended. A decoded item's file is local.
    pub open spec fn after_decode(self, i: usize, outcome: DecodeOutcome, disk: Seq<char>) -> CoordModel {
        let decoding = self.decoding.remove(i);
        match outcome {
            DecodeOutcome::Decoded => CoordModel {
                decoding,
                decoded: self.decoded.insert(i),
                failed: self.failed.remove(i),
                hydrated: self.hydrated.insert(normal(disk)),
                ..self
            },
            DecodeOutcome::Failed => CoordModel {
                decoding,
                failed: self.failed.insert(i, (self.retries(i) + 1) as usize),
                ..self
            },
            DecodeOutcome::Aborted => CoordModel { decoding, ..self },
        }
    }

    /// Whether nothing has to be decoded before the current item can be shown. A
    /// video is played and not decoded, and a placeholder has nothing to decode.
    pub open spec fn is_ready(self, items: Seq<Item>, cur: int) -> bool {
        video_path(items[cur].media()) || items[cur] is Container || self.decoded.contains(
            cur as usize,
        )
    }

    /// Whether the current item's decode is started.
    pub open spec fn starts_current(self, items: Seq<Item>, cur: int) -> bool {
        &&& !self.is_ready(items, cur)
        &&& !self.decoding.contains(cur as usize)
        &&& self.retries(cur as usize) < MAX_DECODE_RETRIES
    }

    /// Whether the look-ahead decode of item `i` may be started while the items
    /// `decoding` are being decoded.
    pub open spec fn may_decode(self, items: Seq<Item>, decoding: Set<usize>, i: int) -> bool {
        &&& decoding.len() < MAX_DECODES
        &&& image_path(items[i].media())
        &&& !self.decoded.contains(i as usize)
        &&& !decoding.contains(i as usize)
        &&& self.retries(i as usize) < MAX_DECODE_RETRIES
    }

    /// The look-ahead decodes that are started among the items `near`, and what
    /// is being decoded then.
    pub open spec fn decodes(self, items: Seq<Item>, near: Seq<int>) -> (Seq<int>, Set<usize>)
        decreases near.len(),
    {
        if near.len() == 0 {
            (Seq::empty(), self.decoding)
        } else {
            let (picked, decoding) = self.decodes(items, near.drop_last());
            if self.may_decode(items, decoding, near.last()) {
                (picked.push(near.last()), decoding.insert(near.last() as usize))
            } else {
                (picked, decoding)
            }
        }
    }

    /// Whether the download of item `i`'s file may be started while the files
    /// `hydrating` are being downloaded. Videos are not downloaded ahead: they
    /// can be huge, and the player streams them on demand.
    pub open spec fn may_hydrate(
        self,
        items: Seq<Item>,
        decoding: Set<usize>,
        hydrating: Set<Seq<char>>,
        i: int,
    ) -> bool {
        &&& hydrating.len() < HYDRATE_WORKERS
        &&& image_path(items[i].media())
        &&& !self.hydrated.contains(normal(items[i].disk()))
        &&& !hydrating.contains(normal(items[i].disk()))
        &&& !decoding.contains(i as usize)
    }

    /// The downloads that are started among the items `near`, and what is being
    /// downloaded then.
    pub open spec fn hydrates(self, items: Seq<Item>, decoding: Set<usize>, near: Seq<int>) -> (
        Seq<int>,
        Set<Seq<char>>,
    )
        decreases near.len(),
    {
        if near.len() == 0 {
            (Seq::empty(), self.hydrating)
        } else {
            let (picked, hydrating) = self.hydrates(items, decoding, near.drop_last());
            if self.may_hydrate(items, decoding, hydrating, near.last()) {
                (picked.push(near.last()), hydrating.insert(normal(items[near.last()].disk())))
            } else {
                (picked, hydrating)
            }
        }
    }

    /// The positions whose decode bookkeeping is kept.
    pub open spec fn kept(cur: int, count: int) -> Set<usize> {
        Set::new(|i: usize| i < count && ring_distance(i as int, cur, count) <= DECODE_REACH)
    }

    /// What is started next, and the state after it.
    pub open spec fn step(self, items: Seq<Item>, cur: int) -> (PlanModel, CoordModel) {
        let count = items.len() as int;
        let kept = CoordModel::kept(cur, count);
        let forgetful = CoordModel {
            decoded: self.decoded.intersect(kept),
            failed: self.failed.restrict(kept),
            ..self
        };
        if self.is_ready(items, cur) {
            let near = window(cur, count, DECODE_AHEAD as int, DECODE_BEHIND as int);
            let (decodes, decoding) = self.decodes(items, near);
            let wide = window(cur, count, HYDRATE_AHEAD as int, HYDRATE_BEHIND as int);
            let (hydrates, hydrating) = self.hydrates(items, decoding, wide);
            (
                PlanModel { priority: None, decodes, hydrates, wait_ms: 20 },
                CoordModel { decoding, hydrating, ..forgetful },
            )
        } else if self.starts_current(items, cur) {
            (
                PlanModel {
                    priority: Some(cur),
                    decodes: Seq::empty(),
                    hydrates: Seq::empty(),
                    wait_ms: 2,
                },
                CoordModel { decoding: self.decoding.insert(cur as usize), ..forgetful },
            )
        } else {
            (
                PlanModel {
                    priority: None,
                    decodes: Seq::empty(),
                    hydrates: Seq::empty(),
                    wait_ms: 2,
                },
                forgetful,
            )
        }
    }
}

/// What is started in one round, by position.
pub struct PlanModel {
    /// The current item's decode, on workers of its own.
    pub priority: Option<int>,
    /// Look-ahead decodes.
    pub decodes: Seq<int>,
    /// Items whose files are downloaded ahead.
    pub hydrates: Seq<int>,
    /// How long to wait for work to end before the next round.
    pub wait_ms: u64,
}

/// What is started in one round, by position.
pub struct Plan {
    pub priority: Option<usize>,
    pub decodes: Vec<usize>,
    pub hydrates: Vec<usize>,
    pub wait_ms: u64,
}

impl View for Plan {
    type V = PlanModel;

    open spec fn view(&self) -> PlanModel {
        PlanModel {
            priority: match self.priority {
                Some(i) => Some(i as int),
                None => None,
            },
            decodes: places(self.decodes@),
            hydrates: places(self.hydrates@),
            wait_ms: self.wait_ms,
        }
    }
}

/// Bookkeeping for the coordinator's running and completed work.
pub struct CoordState {
    // Keyed by path, so an archive counts once no matter how many entries it
    // contributes, and never evicted, so no file is downloaded twice.
    hydrated: StringHashSet,
    hy_in_flight: StringHashSet,
    dc_in_flight: HashSet<usize>,
    decoded_sent: HashSet<usize>,
    failed: HashMap<usize, usize>,
}

impl View for CoordState {
    type V = CoordModel;

    closed spec fn view(&self) -> CoordModel {
        CoordModel {
            hydrated: self.hydrated@,
            hydrating: self.hy_in_flight@,
            decoding: self.dc_in_flight@,
            decoded: self.decoded_sent@,
            failed: self.failed@,
        }
    }
}

impl CoordState {
    /// Nothing done and nothing running.
    pub fn new() -> (r: Self)
        ensures
            r@ == (CoordModel {
                hydrated: Set::empty(),
                hydrating: Set::empty(),
                decoding: Set::empty(),
                decoded: Set::empty(),
                failed: Map::empty(),
            }),
            forall|count: int| r@.wf(count),
            r@.in_budget(),
    {
        CoordState {
            hydrated: StringHashSet::new(),
            hy_in_flight: StringHashSet::new(),
            dc_in_flight: HashSet::new(),
            decoded_sent: HashSet::new(),
            failed: HashMap::new(),
        }
    }

    /// A download has ended.
    pub fn apply_hydrate(&mut self, path: &str, ok: bool)
        ensures
            final(self)@ == old(self)@.after_hydrate(path@, ok),
    {
        let key = normal_form(path);
        self.hy_in_flight.remove(key.as_str());
        if ok {
            self.hydrated.insert(key);
        }
    }

    /// A decode has ended; `disk` is the path of the item's file.
    pub fn apply_decode(&mut self, idx: usize, outcome: DecodeOutcome, disk: &str)
        requires
            outcome == DecodeOutcome::Failed ==> old(self)@.retries(idx) < usize::MAX,
        ensures
            final(self)@ == old(self)@.after_decode(idx, outcome, disk@),
    {
        self.dc_in_flight.remove(&idx);
        match outcome {
            DecodeOutcome::Decoded => {
                self.decoded_sent.insert(idx);
                self.failed.remove(&idx);
                self.hydrated.insert(normal_form(disk));
            },
            DecodeOutcome::Failed => {
                let n: usize = self.failures(idx);
                self.failed.insert(idx, n + 1);
            },
            DecodeOutcome::Aborted => {},
        }
        assert(self@.decoding =~= old(self)@.after_decode(idx, outcome, disk@).decoding);
        assert(self@.failed =~= old(self)@.after_decode(idx, outcome, disk@).failed);
    }

    /// How often the decode of item `idx` has failed.
    fn failures(&self, idx: usize) -> (r: usize)
        ensures
            r == self@.retries(idx),
    {
        match self.failed.get(&idx) {
            Some(n) => *n,
            None => 0,
        }
    }

    /// Start the look-ahead decodes among the items `near`.
    fn pick_decodes(&mut self, items: &Vec<Item>, near: &Vec<usize>) -> (r: Vec<usize>)
        requires
            old(self)@.wf(items@.len() as int),
            forall|j: int| 0 <= j < near@.len() ==> #[trigger] near@[j] < items@.len(),
        ensures
            (places(r@), final(self)@.decoding) == old(self)@.decodes(items@, places(near@)),
            final(self)@ == (CoordModel { decoding: final(self)@.decoding, ..old(self)@ }),
            final(self)@.wf(items@.len() as int),
    {
        let ghost before = self@;
        let ghost all = places(near@);
        let mut picked: Vec<usize> = Vec::new();
        assert(places(picked@) =~= before.decodes(items@, all.take(0)).0);
        for i in 0..near.len()
            invariant
                all == places(near@),
                before.wf(items@.len() as int),
                self@.wf(items@.len() as int),
                self@ == (CoordModel { decoding: self@.decoding, ..before }),
                forall|j: int| 0 <= j < near@.len() ==> #[trigger] near@[j] < items@.len(),
                (places(picked@), self@.decoding) == before.decodes(items@, all.take(i as int)),
        {
            let ghost upto = all.take(i + 1);
            let ghost decoding = self@.decoding;
            let ghost so_far = picked@;
            let idx: usize = near[i];
            assert(upto.drop_last() =~= all.take(i as int));
            assert(upto.last() == idx as int);
            let go: bool = self.dc_in_flight.len() < MAX_DECODES && is_image_file(
                items[idx].media_name(),
            ) && !self.decoded_sent.contains(&idx) && !self.dc_in_flight.contains(&idx)
                && self.failures(idx) < MAX_DECODE_RETRIES;
            assert(go == before.may_decode(items@, decoding, idx as int));
            if go {
                self.dc_in_flight.insert(idx);
                picked.push(idx);
                assert(places(picked@) =~= places(so_far).push(idx as int));
                assert(self@.decoding =~= decoding.insert(idx));
            }
        }
        assert(all.take(near@.len() as int) =~= all);
        picked
    }

    /// Start the downloads among the items `near`.
    fn pick_hydrates(&mut self, items: &Vec<Item>, near: &Vec<usize>) -> (r: Vec<usize>)
        requires
            old(self)@.wf(items@.len() as int),
            forall|j: int| 0 <= j < near@.len() ==> #[trigger] near@[j] < items@.len(),
        ensures
            (places(r@), final(self)@.hydrating) == old(self)@.hydrates(
                items@,
                old(self)@.decoding,
                places(near@),
            ),
            final(self)@ == (CoordModel { hydrating: final(self)@.hydrating, ..old(self)@ }),
            final(self)@.wf(items@.len() as int),
    {
        let ghost before = self@;
        let ghost all = places(near@);
        let mut picked: Vec<usize> = Vec::new();
        assert(places(picked@) =~= before.hydrates(items@, before.decoding, all.take(0)).0);
        for i in 0..near.len()
            invariant
                all == places(near@),
                before.wf(items@.len() as int),
                self@.wf(items@.len() as int),
                self@ == (CoordModel { hydrating: self@.hydrating, ..before }),
                forall|j: int| 0 <= j < near@.len() ==> #[trigger] near@[j] < items@.len(),
                (places(picked@), self@.hydrating) == before.hydrates(
                    items@,
                    before.decoding,
                    all.take(i as int),
                ),
        {
            let ghost upto = all.take(i + 1);
            let ghost hydrating = self@.hydrating;
            let ghost so_far = picked@;
            let idx: usize = near[i];
            assert(upto.drop_last() =~= all.take(i as int));
            assert(upto.last() == idx as int);
            if self.hy_in_flight.len() < HYDRATE_WORKERS && is_image_file(items[idx].media_name()) {
                let target = normal_form(items[idx].disk_path());
                if !self.hydrated.contains(target.as_str()) && !self.hy_in_flight.contains(
                    target.as_str(),
                ) && !self.dc_in_flight.contains(&idx) {
                    assert(before.may_hydrate(items@, before.decoding, hydrating, idx as int));
                    self.hy_in_flight.insert(target);
                    picked.push(idx);
                    assert(places(picked@) =~= places(so_far).push(idx as int));
                    assert(self@.hydrating =~= hydrating.insert(normal(items@[idx as int].disk())));
                }
            }
        }
        assert(all.take(near@.len() as int) =~= all);
        picked
    }

    /// Forget decode bookkeeping outside the decode window.
    fn forget_far(&mut self, cur: usize, count: usize)
        requires
            cur < count,
            cur + count <= usize::MAX,
            old(self)@.wf(count as int),
        ensures
            final(self)@ == (CoordModel {
                decoded: old(self)@.decoded.intersect(CoordModel::kept(cur as int, count as int)),
                failed: old(self)@.failed.restrict(CoordModel::kept(cur as int, count as int)),
                ..old(self)@
            }),
            final(self)@.wf(count as int),
    {
        let ghost keep = CoordModel::kept(cur as int, count as int);
        let mut near = window_indices(cur, count, DECODE_REACH, DECODE_REACH);
        let ghost w = near@;
        near.push(cur);
        proof {
            window_covers_reach(cur as int, count as int, DECODE_REACH as int, DECODE_REACH as int);
        }
        assert forall|i: usize| keep.contains(i) <==> near@.contains(i) by {
            if i < count {
                window_is_near(
                    cur as int,
                    count as int,
                    DECODE_REACH as int,
                    DECODE_REACH as int,
                    i as int,
                );
            }
            let win = window(cur as int, count as int, DECODE_REACH as int, DECODE_REACH as int);
            if win.contains(i as int) {
                let j = choose|j: int| 0 <= j < win.len() && win[j] == i as int;
                assert(places(w)[j] == w[j] as int);
                assert(near@[j] == i);
            }
            if i == cur {
                assert(near@[w.len() as int] == cur);
            }
            if near@.contains(i) {
                let j = choose|j: int| 0 <= j < near@.len() && near@[j] == i;
                if j < w.len() {
                    assert(places(w)[j] == i as int);
                    assert(win.contains(i as int));
                }
            }
        }
        let mut decoded: HashSet<usize> = HashSet::new();
        let mut failed: HashMap<usize, usize> = HashMap::new();
        let ghost before = self@;
        for k in 0..near.len()
            invariant
                self@ == before,
                forall|i: usize|
                    decoded@.contains(i) <==> before.decoded.contains(i) && near@.take(
                        k as int,
                    ).contains(i),
                forall|i: usize|
                    failed@.contains_key(i) <==> before.failed.contains_key(i) && near@.take(
                        k as int,
                    ).contains(i),
                forall|i: usize| #[trigger]
                    failed@.contains_key(i) ==> failed@[i] == before.failed[i],
        {
            let idx: usize = near[k];
            assert forall|i: usize|
                near@.take(k + 1).contains(i) <==> near@.take(k as int).contains(i) || i == idx by {
                let (a, b) = (near@.take(k as int), near@.take(k + 1));
                if a.contains(i) {
                    let j = choose|j: int| 0 <= j < a.len() && a[j] == i;
                    assert(b[j] == i);
                }
                if i == idx {
                    assert(b[k as int] == i);
                }
                if b.contains(i) {
                    let j = choose|j: int| 0 <= j < b.len() && b[j] == i;
                    if j < k {
                        assert(a[j] == i);
                    }
                }
            }
            if self.decoded_sent.contains(&idx) {
                decoded.insert(idx);
            }
            if let Some(n) = self.failed.get(&idx) {
                failed.insert(idx, *n);
            }
        }
        assert(near@.take(near@.len() as int) =~= near@);
        self.decoded_sent = decoded;
        self.failed = failed;
        assert(self@.decoded =~= before.decoded.intersect(keep));
        assert(self@.failed =~= before.failed.restrict(keep));
    }

    /// One round: what to start now, with item `cur` of `items` on screen.
    pub fn step(&mut self, items: &Vec<Item>, cur: usize) -> (r: Plan)
        requires
            cur < items@.len(),
            2 * items@.len() <= usize::MAX,
            old(self)@.wf(items@.len() as int),
        ensures
            (r@, final(self)@) == old(self)@.step(items@, cur as int),
            final(self)@.wf(items@.len() as int),
    {
        let count: usize = items.len();
        let ghost before = self@;
        let ready: bool = is_video_file(items[cur].media_name()) || items[cur].is_container()
            || self.decoded_sent.contains(&cur);
        assert(ready == before.is_ready(items@, cur as int));
        let mut plan = Plan {
            priority: None,
            decodes: Vec::new(),
            hydrates: Vec::new(),
            wait_ms: if ready {
                20
            } else {
                2
            },
        };
        assert(places(plan.decodes@) =~= Seq::<int>::empty());
        assert(places(plan.hydrates@) =~= Seq::<int>::empty());
        if !ready && !self.dc_in_flight.contains(&cur) && self.failures(cur) < MAX_DECODE_RETRIES {
            self.dc_in_flight.insert(cur);
            plan.priority = Some(cur);
        }
        let ghost started = self@;
        assert(started =~= CoordModel { decoding: started.decoding, ..before });
        if ready {
            let near = window_indices(cur, count, DECODE_AHEAD, DECODE_BEHIND);
            proof {
                window_in_list(near@, cur as int, count as int, DECODE_AHEAD as int, DECODE_BEHIND as int);
            }
            plan.decodes = self.pick_decodes(items, &near);
            let wide = window_indices(cur, count, HYDRATE_AHEAD, HYDRATE_BEHIND);
            proof {
                window_in_list(
                    wide@,
                    cur as int,
                    count as int,
                    HYDRATE_AHEAD as int,
                    HYDRATE_BEHIND as int,
                );
                hydrates_ignore_decoding(
                    before,
                    self@,
                    items@,
                    self@.decoding,
                    places(wide@),
                );
            }
            plan.hydrates = self.pick_hydrates(items, &wide);
        }
        self.forget_far(cur, count);
        plan
    }
}

/// The members of a window are positions of the list.
proof fn window_in_list(v: Seq<usize>, cur: int, count: int, fwd: int, bwd: int)
    requires
        0 <= cur < count,
        0 <= fwd,
        0 <= bwd,
        places(v) == window(cur, count, fwd, bwd),
    ensures
        forall|j: int| 0 <= j < v.len() ==> #[trigger] v[j] < count,
{
    window_covers_reach(cur, count, fwd, bwd);
    assert forall|j: int| 0 <= j < v.len() implies #[trigger] v[j] < count by {
        assert(places(v)[j] == v[j] as int);
        assert(window(cur, count, fwd, bwd).contains(v[j] as int));
    }
}

/// The downloads that are started depend on what is being decoded only through
/// the `decoding` that is passed on its own.
proof fn hydrates_ignore_decoding(
    a: CoordModel,
    b: CoordModel,
    items: Seq<Item>,
    decoding: Set<usize>,
    near: Seq<int>,
)
    requires
        a.hydrated == b.hydrated,
        a.hydrating == b.hydrating,
    ensures
        a.hydrates(items, decoding, near) == b.hydrates(items, decoding, near),
    decreases near.len(),
{
    if near.len() > 0 {
        hydrates_ignore_decoding(a, b, items, decoding, near.drop_last());
    }
}

proof fn decodes_facts(s: CoordModel, items: Seq<Item>, near: Seq<int>)
    requires
        s.decoding.finite(),
        forall|j: int| 0 <= j < near.len() ==> 0 <= #[trigger] near[j] < usize::MAX,
    ensures
        ({
            let (picked, decoding) = s.decodes(items, near);
            &&& decoding.finite()
            &&& s.decoding.subset_of(decoding)
            &&& decoding.len() <= (if s.decoding.len() >= MAX_DECODES {
                s.decoding.len()
            } else {
                MAX_DECODES as nat
            })
            &&& forall|j: int|
                0 <= j < picked.len() ==> {
                    &&& near.contains(#[trigger] picked[j])
                    &&& decoding.contains(picked[j] as usize)
                    &&& !s.decoding.contains(picked[j] as usize)
                    &&& !s.decoded.contains(picked[j] as usize)
                    &&& image_path(items[picked[j]].media())
                    &&& s.retries(picked[j] as usize) < MAX_DECODE_RETRIES
                }
            &&& forall|i: usize| #[trigger]
                decoding.contains(i) ==> s.decoding.contains(i) || (exists|j: int|
                    0 <= j < picked.len() && #[trigger] picked[j] == i as int)
            &&& picked.no_duplicates()
        }),
    decreases near.len(),
{
    if near.len() > 0 {
        let init = near.drop_last();
        assert forall|j: int| 0 <= j < init.len() implies 0 <= #[trigger] init[j] < usize::MAX by {
            assert(init[j] == near[j]);
        }
        decodes_facts(s, items, init);
        let (old_picked, old_decoding) = s.decodes(items, init);
        let (picked, decoding) = s.decodes(items, near);
        let x = near.last();
        assert(near[near.len() - 1] == x);
        assert forall|j: int| 0 <= j < old_picked.len() implies near.contains(
            #[trigger] old_picked[j],
        ) by {
            let k = choose|k: int| 0 <= k < init.len() && init[k] == old_picked[j];
            assert(near[k] == old_picked[j]);
        }
        if s.may_decode(items, old_decoding, x) {
            assert(near.contains(x));
            assert forall|j: int| 0 <= j < picked.len() implies {
                &&& near.contains(#[trigger] picked[j])
                &&& decoding.contains(picked[j] as usize)
                &&& !s.decoding.contains(picked[j] as usize)
                &&& !s.decoded.contains(picked[j] as usize)
                &&& image_path(items[picked[j]].media())
                &&& s.retries(picked[j] as usize) < MAX_DECODE_RETRIES
            } by {
                if j < old_picked.len() {
                    assert(picked[j] == old_picked[j]);
                }
            }
            assert forall|i: usize| #[trigger] decoding.contains(i) implies s.decoding.contains(i)
                || (exists|j: int| 0 <= j < picked.len() && #[trigger] picked[j] == i as int) by {
                if old_decoding.contains(i) {
                    if !s.decoding.contains(i) {
                        let j = choose|j: int|
                            0 <= j < old_picked.len() && #[trigger] old_picked[j] == i as int;
                        assert(picked[j] == i as int);
                    }
                } else {
                    assert(picked[old_picked.len() as int] == i as int);
                }
            }
            assert forall|j: int, k: int|
                0 <= j < picked.len() && 0 <= k < picked.len() && j != k implies picked[j]
                != picked[k] by {
                if j < old_picked.len() && k < old_picked.len() {
                    assert(old_picked[j] != old_picked[k]);
                } else if j < old_picked.len() {
                    assert(old_decoding.contains(old_picked[j] as usize));
                } else {
                    assert(old_decoding.contains(old_picked[k] as usize));
                }
            }
        }
    }
}

proof fn hydrates_facts(
    s: CoordModel,
    items: Seq<Item>,
    decoding: Set<usize>,
    near: Seq<int>,
)
    requires
        s.hydrating.finite(),
    ensures
        ({
            let (picked, hydrating) = s.hydrates(items, decoding, near);
            &&& hydrating.finite()
            &&& s.hydrating.subset_of(hydrating)
            &&& hydrating.len() <= (if s.hydrating.len() >= HYDRATE_WORKERS {
                s.hydrating.len()
            } else {
                HYDRATE_WORKERS as nat
            })
            &&& forall|j: int|
                0 <= j < picked.len() ==> {
                    &&& near.contains(#[trigger] picked[j])
                    &&& hydrating.contains(normal(items[picked[j]].disk()))
                    &&& !s.hydrating.contains(normal(items[picked[j]].disk()))
                    &&& !s.hydrated.contains(normal(items[picked[j]].disk()))
                    &&& !decoding.contains(picked[j] as usize)
                    &&& image_path(items[picked[j]].media())
                }
            &&& forall|j: int, k: int|
                0 <= j < k < picked.len() ==> normal(items[#[trigger] picked[j]].disk()) != normal(
                    items[#[trigger] picked[k]].disk(),
                )
        }),
    decreases near.len(),
{
    if near.len() > 0 {
        let init = near.drop_last();
        hydrates_facts(s, items, decoding, init);
        let (old_picked, old_hydrating) = s.hydrates(items, decoding, init);
        let (picked, hydrating) = s.hydrates(items, decoding, near);
        let x = near.last();
        assert(near[near.len() - 1] == x);
        assert forall|j: int| 0 <= j < old_picked.len() implies near.contains(
            #[trigger] old_picked[j],
        ) by {
            let k = choose|k: int| 0 <= k < init.len() && init[k] == old_picked[j];
            assert(near[k] == old_picked[j]);
        }
        if s.may_hydrate(items, decoding, old_hydrating, x) {
            assert(near.contains(x));
            assert forall|j: int| 0 <= j < picked.len() implies {
                &&& near.contains(#[trigger] picked[j])
                &&& hydrating.contains(normal(items[picked[j]].disk()))
                &&& !s.hydrating.contains(normal(items[picked[j]].disk()))
                &&& !s.hydrated.contains(normal(items[picked[j]].disk()))
                &&& !decoding.contains(picked[j] as usize)
                &&& image_path(items[picked[j]].media())
            } by {
                if j < old_picked.len() {
                    assert(picked[j] == old_picked[j]);
                }
            }
            assert forall|j: int, k: int| 0 <= j < k < picked.len() implies normal(
                items[#[trigger] picked[j]].disk(),
            ) != normal(items[#[trigger] picked[k]].disk()) by {
                assert(picked[j] == old_picked[j]);
                if k < old_picked.len() {
                    assert(picked[k] == old_picked[k]);
                }
            }
        }
    }
}

/// Look-ahead never competes with the item on screen: until it is ready, nothing
/// but its own decode is started.
pub proof fn look_ahead_waits_for_current(s: CoordModel, items: Seq<Item>, cur: int)
    requires
        0 <= cur < items.len() <= usize::MAX,
        !s.is_ready(items, cur),
    ensures
        s.step(items, cur).0.decodes.len() == 0,
        s.step(items, cur).0.hydrates.len() == 0,
        s.step(items, cur).1.hydrating == s.hydrating,
        forall|i: usize|
            s.step(items, cur).1.decoding.contains(i) ==> s.decoding.contains(i) || i == cur,
{
}

/// The number of downloads never exceeds the number of workers, and look-ahead
/// never raises the number of decodes above its limit.
pub proof fn running_work_is_limited(s: CoordModel, items: Seq<Item>, cur: int)
    requires
        0 <= cur < items.len() <= usize::MAX,
        s.wf(items.len() as int),
    ensures
        s.hydrating.len() <= HYDRATE_WORKERS ==> s.step(items, cur).1.hydrating.len()
            <= HYDRATE_WORKERS,
        s.is_ready(items, cur) && s.decoding.len() <= MAX_DECODES ==> s.step(
            items,
            cur,
        ).1.decoding.len() <= MAX_DECODES,
        !s.is_ready(items, cur) ==> s.step(items, cur).1.decoding.len() <= s.decoding.len() + 1,
{
    let count = items.len() as int;
    let near = window(cur, count, DECODE_AHEAD as int, DECODE_BEHIND as int);
    near_is_in_list(cur, count, DECODE_AHEAD as int, DECODE_BEHIND as int);
    decodes_facts(s, items, near);
    let wide = window(cur, count, HYDRATE_AHEAD as int, HYDRATE_BEHIND as int);
    hydrates_facts(s, items, s.decodes(items, near).1, wide);
}

proof fn near_is_in_list(cur: int, count: int, fwd: int, bwd: int)
    requires
        0 <= cur < count <= usize::MAX,
        0 <= fwd,
        0 <= bwd,
    ensures
        forall|j: int|
            0 <= j < window(cur, count, fwd, bwd).len() ==> 0 <= #[trigger] window(
                cur,
                count,
                fwd,
                bwd,
            )[j] < usize::MAX,
{
    window_covers_reach(cur, count, fwd, bwd);
    let w = window(cur, count, fwd, bwd);
    assert forall|j: int| 0 <= j < w.len() implies 0 <= #[trigger] w[j] < usize::MAX by {
        assert(w.contains(w[j]));
    }
}

/// A file is downloaded ahead only if it is neither local nor being downloaded,
/// and never by two downloads at once.
pub proof fn no_file_is_downloaded_twice(s: CoordModel, items: Seq<Item>, cur: int)
    requires
        0 <= cur < items.len() <= usize::MAX,
        s.wf(items.len() as int),
    ensures
        ({
            let (plan, next) = s.step(items, cur);
            &&& forall|j: int|
                0 <= j < plan.hydrates.len() ==> {
                    let path = normal(items[#[trigger] plan.hydrates[j]].disk());
                    !s.hydrated.contains(path) && !s.hydrating.contains(path)
                        && next.hydrating.contains(path)
                }
            &&& forall|j: int, k: int|
                0 <= j < k < plan.hydrates.len() ==> normal(
                    items[#[trigger] plan.hydrates[j]].disk(),
                ) != normal(items[#[trigger] plan.hydrates[k]].disk())
        }),
{
    let count = items.len() as int;
    let near = window(cur, count, DECODE_AHEAD as int, DECODE_BEHIND as int);
    let wide = window(cur, count, HYDRATE_AHEAD as int, HYDRATE_BEHIND as int);
    hydrates_facts(s, items, s.decodes(items, near).1, wide);
}

/// What is prepared ahead are images of the list, near enough to be still worth
/// the work while the view stays where it is; videos and placeholders never are.
pub proof fn only_near_images_are_prepared(s: CoordModel, items: Seq<Item>, cur: int)
    requires
        0 <= cur < items.len() <= usize::MAX,
        s.wf(items.len() as int),
    ensures
        ({
            let (plan, next) = s.step(items, cur);
            let count = items.len() as int;
            &&& forall|j: int|
                0 <= j < plan.decodes.len() ==> {
                    let i = #[trigger] plan.decodes[j];
                    &&& 0 <= i < count
                    &&& image_path(items[i].media())
                    &&& ring_distance(i, cur, count) <= DECODE_REACH
                    &&& !s.decoding.contains(i as usize)
                    &&& !s.decoded.contains(i as usize)
                    &&& s.retries(i as usize) < MAX_DECODE_RETRIES
                }
            &&& plan.decodes.no_duplicates()
            &&& forall|j: int|
                0 <= j < plan.hydrates.len() ==> {
                    let i = #[trigger] plan.hydrates[j];
                    &&& 0 <= i < count
                    &&& image_path(items[i].media())
                    &&& ring_distance(i, cur, count) <= HYDRATE_AHEAD
                }
        }),
{
    let count = items.len() as int;
    let (plan, next) = s.step(items, cur);
    let near = window(cur, count, DECODE_AHEAD as int, DECODE_BEHIND as int);
    near_is_in_list(cur, count, DECODE_AHEAD as int, DECODE_BEHIND as int);
    decodes_facts(s, items, near);
    let wide = window(cur, count, HYDRATE_AHEAD as int, HYDRATE_BEHIND as int);
    hydrates_facts(s, items, s.decodes(items, near).1, wide);
    window_covers_reach(cur, count, DECODE_AHEAD as int, DECODE_BEHIND as int);
    window_covers_reach(cur, count, HYDRATE_AHEAD as int, HYDRATE_BEHIND as int);
    assert forall|j: int| 0 <= j < plan.decodes.len() implies {
        let i = #[trigger] plan.decodes[j];
        &&& 0 <= i < count
        &&& ring_distance(i, cur, count) <= DECODE_REACH
    } by {
        let i = plan.decodes[j];
        assert(near.contains(i));
        window_is_near(cur, count, DECODE_AHEAD as int, DECODE_BEHIND as int, i);
    }
    assert forall|j: int| 0 <= j < plan.hydrates.len() implies {
        let i = #[trigger] plan.hydrates[j];
        &&& 0 <= i < count
        &&& ring_distance(i, cur, count) <= HYDRATE_AHEAD
    } by {
        let i = plan.hydrates[j];
        assert(wide.contains(i));
        window_is_near(cur, count, HYDRATE_AHEAD as int, HYDRATE_BEHIND as int, i);
    }
}

/// No item is decoded again once its decode has failed too often, whatever the
/// order in which work is started and ends.
pub proof fn retry_budget_is_kept(
    s: CoordModel,
    items: Seq<Item>,
    cur: int,
    i: usize,
    outcome: DecodeOutcome,
    path: Seq<char>,
    ok: bool,
)
    requires
        s.in_budget(),
        s.wf(items.len() as int),
        0 <= cur < items.len() <= usize::MAX,
    ensures
        s.step(items, cur).1.in_budget(),
        s.decoding.contains(i) ==> s.after_decode(i, outcome, path).in_budget(),
        s.after_hydrate(path, ok).in_budget(),
{
    let count = items.len() as int;
    let near = window(cur, count, DECODE_AHEAD as int, DECODE_BEHIND as int);
    near_is_in_list(cur, count, DECODE_AHEAD as int, DECODE_BEHIND as int);
    decodes_facts(s, items, near);
    let next = s.step(items, cur).1;
    assert forall|k: usize| #[trigger] next.retries(k) <= MAX_DECODE_RETRIES by {
        assert(s.retries(k) <= MAX_DECODE_RETRIES);
    }
    assert forall|k: usize| #[trigger] next.decoding.contains(k) implies next.retries(k)
        < MAX_DECODE_RETRIES by {
        assert(next.retries(k) <= s.retries(k));
    }
    if s.decoding.contains(i) {
        let done = s.after_decode(i, outcome, path);
        assert forall|k: usize| #[trigger] done.retries(k) <= MAX_DECODE_RETRIES by {
            assert(s.retries(k) <= MAX_DECODE_RETRIES);
            assert(s.retries(i) < MAX_DECODE_RETRIES);
        }
        assert forall|k: usize| #[trigger] done.decoding.contains(k) implies done.retries(k)
            < MAX_DECODE_RETRIES by {
            assert(s.decoding.contains(k));
            assert(done.retries(k) == s.retries(k));
        }
    }
    let h = s.after_hydrate(path, ok);
    assert forall|k: usize| #[trigger] h.retries(k) <= MAX_DECODE_RETRIES by {
        assert(s.retries(k) <= MAX_DECODE_RETRIES);
    }
    assert forall|k: usize| #[trigger] h.decoding.contains(k) implies h.retries(k)
        < MAX_DECODE_RETRIES by {
        assert(s.decoding.contains(k));
        assert(h.retries(k) == s.retries(k));
    }
}

/// A file that has been pulled local stays known as local.
pub proof fn local_files_are_remembered(
    s: CoordModel,
    items: Seq<Item>,
    cur: int,
    i: usize,
    outcome: DecodeOutcome,
    path: Seq<char>,
    ok: bool,
)
    ensures
        s.hydrated.subset_of(s.step(items, cur).1.hydrated),
        s.hydrated.subset_of(s.after_decode(i, outcome, path).hydrated),
        s.hydrated.subset_of(s.after_hydrate(path, ok).hydrated),
{
}

/// How often a decode has failed, in a record that says nothing of those that never did.
pub open spec fn failed_fewer_than(failed: Map<usize, usize>, i: usize, n: int) -> bool {
    if failed.contains_key(i) {
        failed[i] < n
    } else {
        0 < n
    }
}

/// The item on screen is decoded first: if it is no video and no placeholder, has not been
/// decoded, is not being decoded and has failed fewer than three times, its decode is
/// started now, whatever kind of item it is and whatever else is running. In no other
/// case is one started on the workers kept for it.
pub proof fn item_on_screen_is_decoded_first(s: CoordModel, items: Seq<Item>, cur: usize)
    requires
        cur < items.len(),
    ensures
        ({
            let (plan, next) = s.step(items, cur as int);
            let due = !video_path(items[cur as int].media()) && !(items[cur as int] is Container)
                && !s.decoded.contains(cur) && !s.decoding.contains(cur) && failed_fewer_than(
                s.failed,
                cur,
                3,
            );
            &&& due ==> plan.priority == Some(cur as int) && next.decoding.contains(cur)
            &&& !due ==> plan.priority is None
        }),
{
}

/// Until the item on screen is ready, nothing else is started, and the next round comes
/// soon; once it is, there is no hurry.
pub proof fn rounds_follow_the_item_on_screen(s: CoordModel, items: Seq<Item>, cur: usize)
    requires
        cur < items.len(),
    ensures
        ({
            let (plan, next) = s.step(items, cur as int);
            let ready = video_path(items[cur as int].media()) || items[cur as int] is Container
                || s.decoded.contains(cur);
            &&& ready ==> plan.wait_ms == 20
            &&& !ready ==> plan.wait_ms == 2 && plan.decodes.len() == 0 && plan.hydrates.len() == 0
                && next.hydrating == s.hydrating && next.decoding.subset_of(s.decoding.insert(cur))
            &&& s.decoding.subset_of(next.decoding)
            &&& s.hydrating.subset_of(next.hydrating)
            &&& next.hydrated == s.hydrated
        }),
{
    let count = items.len() as int;
    let near = window(cur as int, count, DECODE_AHEAD as int, DECODE_BEHIND as int);
    decodes_grow(s, items, near);
    let wide = window(cur as int, count, HYDRATE_AHEAD as int, HYDRATE_BEHIND as int);
    hydrates_grow(s, items, s.decodes(items, near).1, wide);
}

proof fn decodes_grow(s: CoordModel, items: Seq<Item>, near: Seq<int>)
    ensures
        s.decoding.subset_of(s.decodes(items, near).1),
    decreases near.len(),
{
    if near.len() > 0 {
        decodes_grow(s, items, near.drop_last());
    }
}

proof fn hydrates_grow(s: CoordModel, items: Seq<Item>, decoding: Set<usize>, near: Seq<int>)
    ensures
        s.hydrating.subset_of(s.hydrates(items, decoding, near).1),
    decreases near.len(),
{
    if near.len() > 0 {
        hydrates_grow(s, items, decoding, near.drop_last());
    }
}

/// Once the item on screen is ready, its neighbours are decoded: each image up to three
/// places ahead or two behind that is not decoded and has not failed three times is being
/// decoded after the round, unless five decodes are running.
pub proof fn neighbors_are_decoded(s: CoordModel, items: Seq<Item>, cur: usize, i: usize)
    requires
        cur < items.len() <= usize::MAX,
        s.wf(items.len() as int),
        video_path(items[cur as int].media()) || items[cur as int] is Container
            || s.decoded.contains(cur),
        i < items.len(),
        i != cur,
        (i - cur) % items.len() as int <= 3 || (cur - i) % items.len() as int <= 2,
        image_path(items[i as int].media()),
        !s.decoded.contains(i),
        failed_fewer_than(s.failed, i, 3),
    ensures
        s.step(items, cur as int).1.decoding.contains(i) || s.step(
            items,
            cur as int,
        ).1.decoding.len() >= 5,
{
    let count = items.len() as int;
    let near = window(cur as int, count, DECODE_AHEAD as int, DECODE_BEHIND as int);
    window_covers_reach(cur as int, count, DECODE_AHEAD as int, DECODE_BEHIND as int);
    near_is_in_list(cur as int, count, DECODE_AHEAD as int, DECODE_BEHIND as int);
    assert(near.contains(i as int));
    wanted_decode_is_started(s, items, near, i);
}

proof fn wanted_decode_is_started(s: CoordModel, items: Seq<Item>, near: Seq<int>, i: usize)
    requires
        s.decoding.finite(),
        forall|j: int| 0 <= j < near.len() ==> 0 <= #[trigger] near[j] < usize::MAX,
        near.contains(i as int),
        image_path(items[i as int].media()),
        !s.decoded.contains(i),
        s.retries(i) < MAX_DECODE_RETRIES,
    ensures
        s.decodes(items, near).1.contains(i) || s.decodes(items, near).1.len() >= MAX_DECODES,
    decreases near.len(),
{
    let init = near.drop_last();
    assert forall|j: int| 0 <= j < init.len() implies 0 <= #[trigger] init[j] < usize::MAX by {
        assert(init[j] == near[j]);
    }
    decodes_facts(s, items, init);
    let before = s.decodes(items, init).1;
    assert(near[near.len() - 1] == near.last());
    if near.last() != i {
        let j = choose|j: int| 0 <= j < near.len() && near[j] == i as int;
        assert(init[j] == i as int);
        wanted_decode_is_started(s, items, init, i);
    }
}

/// Of the neighbours the next item is the first to be decoded, if it has to be and fewer
/// than five decodes are running.
pub proof fn next_item_is_decoded_first(s: CoordModel, items: Seq<Item>, cur: usize)
    requires
        2 <= items.len() <= usize::MAX,
        cur < items.len(),
        video_path(items[cur as int].media()) || items[cur as int] is Container
            || s.decoded.contains(cur),
        s.decoding.len() < 5,
        ({
            let i = (if cur + 1 < items.len() {
                cur + 1
            } else {
                0
            }) as usize;
            &&& image_path(items[i as int].media())
            &&& !s.decoded.contains(i)
            &&& !s.decoding.contains(i)
            &&& failed_fewer_than(s.failed, i, 3)
        }),
    ensures
        ({
            let plan = s.step(items, cur as int).0;
            plan.decodes.len() > 0 && plan.decodes[0] == (if cur + 1 < items.len() {
                cur + 1
            } else {
                0
            })
        }),
{
    let count = items.len() as int;
    let near = window(cur as int, count, DECODE_AHEAD as int, DECODE_BEHIND as int);
    window_begins_with_the_neighbors(
        cur as int,
        count,
        DECODE_AHEAD as int,
        DECODE_BEHIND as int,
    );
    first_wanted_is_first(s, items, near);
}

proof fn first_wanted_is_first(s: CoordModel, items: Seq<Item>, near: Seq<int>)
    requires
        near.len() > 0,
        s.may_decode(items, s.decoding, near[0]),
    ensures
        s.decodes(items, near).0.len() > 0,
        s.decodes(items, near).0[0] == near[0],
    decreases near.len(),
{
    let init = near.drop_last();
    if init.len() > 0 {
        assert(init[0] == near[0]);
        first_wanted_is_first(s, items, init);
    } else {
        assert(near.last() == near[0]);
        reveal_with_fuel(CoordModel::decodes, 2);
    }
}

/// Once the item on screen is ready, the files of the images up to 64 places away are
/// downloaded: after the round each is local, being downloaded or being decoded, unless
/// eight downloads are running.
pub proof fn files_around_are_downloaded(s: CoordModel, items: Seq<Item>, cur: usize, i: usize)
    requires
        cur < items.len() <= usize::MAX,
        s.wf(items.len() as int),
        video_path(items[cur as int].media()) || items[cur as int] is Container
            || s.decoded.contains(cur),
        i < items.len(),
        i != cur,
        (i - cur) % items.len() as int <= 64 || (cur - i) % items.len() as int <= 64,
        image_path(items[i as int].media()),
    ensures
        ({
            let next = s.step(items, cur as int).1;
            let file = normal(items[i as int].disk());
            s.hydrated.contains(file) || next.hydrating.contains(file) || next.decoding.contains(i)
                || next.hydrating.len() >= 8
        }),
{
    let count = items.len() as int;
    let near = window(cur as int, count, DECODE_AHEAD as int, DECODE_BEHIND as int);
    let wide = window(cur as int, count, HYDRATE_AHEAD as int, HYDRATE_BEHIND as int);
    window_covers_reach(cur as int, count, HYDRATE_AHEAD as int, HYDRATE_BEHIND as int);
    assert(wide.contains(i as int));
    wanted_download_is_started(s, items, s.decodes(items, near).1, wide, i);
}

proof fn wanted_download_is_started(
    s: CoordModel,
    items: Seq<Item>,
    decoding: Set<usize>,
    near: Seq<int>,
    i: usize,
)
    requires
        s.hydrating.finite(),
        near.contains(i as int),
        image_path(items[i as int].media()),
    ensures
        ({
            let hydrating = s.hydrates(items, decoding, near).1;
            let file = normal(items[i as int].disk());
            s.hydrated.contains(file) || hydrating.contains(file) || decoding.contains(i)
                || hydrating.len() >= HYDRATE_WORKERS
        }),
    decreases near.len(),
{
    let init = near.drop_last();
    hydrates_facts(s, items, decoding, init);
    assert(near[near.len() - 1] == near.last());
    if near.last() != i {
        let j = choose|j: int| 0 <= j < near.len() && near[j] == i as int;
        assert(init[j] == i as int);
        wanted_download_is_started(s, items, decoding, init, i);
    }
}

/// What is started is what begins to run: the decodes and downloads that run after a
/// round are those before it and those of the plan.
pub proof fn plan_is_what_starts(s: CoordModel, items: Seq<Item>, cur: usize, i: usize)
    requires
        cur < items.len() <= usize::MAX,
        s.wf(items.len() as int),
    ensures
        ({
            let (plan, next) = s.step(items, cur as int);
            &&& next.decoding.contains(i) <==> s.decoding.contains(i) || plan.priority == Some(
                i as int,
            ) || plan.decodes.contains(i as int)
            &&& plan.hydrates.contains(i as int) ==> next.hydrating.contains(
                normal(items[i as int].disk()),
            )
        }),
{
    let count = items.len() as int;
    let (plan, next) = s.step(items, cur as int);
    let near = window(cur as int, count, DECODE_AHEAD as int, DECODE_BEHIND as int);
    near_is_in_list(cur as int, count, DECODE_AHEAD as int, DECODE_BEHIND as int);
    decodes_facts(s, items, near);
    let wide = window(cur as int, count, HYDRATE_AHEAD as int, HYDRATE_BEHIND as int);
    hydrates_facts(s, items, s.decodes(items, near).1, wide);
    if plan.decodes.contains(i as int) {
        let j = choose|j: int| 0 <= j < plan.decodes.len() && plan.decodes[j] == i as int;
        assert(plan.decodes[j] == i as int);
    }
    if plan.hydrates.contains(i as int) {
        let j = choose|j: int| 0 <= j < plan.hydrates.len() && plan.hydrates[j] == i as int;
        assert(plan.hydrates[j] == i as int);
    }
    if next.decoding.contains(i) && !s.decoding.contains(i) && plan.priority is None {
        let (picked, decoding) = s.decodes(items, near);
        let j = choose|j: int| 0 <= j < picked.len() && #[trigger] picked[j] == i as int;
        assert(plan.decodes.contains(plan.decodes[j]));
    }
}

/// What was decoded, and how often a decode failed, is remembered up to three places from
/// the item on screen, and forgotten beyond.
pub proof fn only_near_decodes_are_remembered(s: CoordModel, items: Seq<Item>, cur: usize, i: usize)
    requires
        cur < items.len() <= usize::MAX,
        i < items.len(),
    ensures
        ({
            let next = s.step(items, cur as int).1;
            let apart = if i <= cur {
                cur - i
            } else {
                i - cur
            };
            let near = apart <= 3 || items.len() - apart <= 3;
            &&& near ==> (next.decoded.contains(i) <==> s.decoded.contains(i))
            &&& near ==> (next.failed.contains_key(i) <==> s.failed.contains_key(i))
            &&& near && s.failed.contains_key(i) ==> next.failed[i] == s.failed[i]
            &&& !near ==> !next.decoded.contains(i) && !next.failed.contains_key(i)
        }),
{
    distance_is_the_shorter_way(i as int, cur as int, items.len() as int);
}

/// The end of a download: it no longer runs, its file is local exactly if it was or the
/// download succeeded, and nothing else changes. One that failed can be tried again.
pub proof fn download_ends(s: CoordModel, path: Seq<char>, ok: bool, other: Seq<char>)
    ensures
        ({
            let next = s.after_hydrate(path, ok);
            &&& !next.hydrating.contains(normal(path))
            &&& next.hydrated.contains(normal(path)) <==> ok || s.hydrated.contains(normal(path))
            &&& other != normal(path) ==> (next.hydrating.contains(other) <==> s.hydrating.contains(
                other,
            )) && (next.hydrated.contains(other) <==> s.hydrated.contains(other))
            &&& next.decoding == s.decoding && next.decoded == s.decoded && next.failed == s.failed
        }),
{
}

/// The end of a decode: it no longer runs. One that succeeded is remembered, with its file
/// local and its failures forgotten; one that failed counts one failure more; one that was
/// given up counts for nothing. No other item is touched.
pub proof fn decode_ends(
    s: CoordModel,
    i: usize,
    outcome: DecodeOutcome,
    disk: Seq<char>,
    other: usize,
)
    requires
        s.failed.contains_key(i) ==> s.failed[i] < usize::MAX,
    ensures
        ({
            let next = s.after_decode(i, outcome, disk);
            &&& !next.decoding.contains(i)
            &&& outcome == DecodeOutcome::Decoded ==> next.decoded.contains(i)
                && !next.failed.contains_key(i) && next.hydrated == s.hydrated.insert(normal(disk))
            &&& outcome == DecodeOutcome::Failed ==> next.failed.contains_key(i) && next.failed[i]
                == (if s.failed.contains_key(i) {
                s.failed[i] + 1
            } else {
                1
            }) && next.decoded == s.decoded && next.hydrated == s.hydrated
            &&& outcome == DecodeOutcome::Aborted ==> next.failed == s.failed && next.decoded
                == s.decoded && next.hydrated == s.hydrated
            &&& next.hydrating == s.hydrating
            &&& other != i ==> {
                &&& next.decoding.contains(other) <==> s.decoding.contains(other)
                &&& next.decoded.contains(other) <==> s.decoded.contains(other)
                &&& next.failed.contains_key(other) <==> s.failed.contains_key(other)
                &&& s.failed.contains_key(other) ==> next.failed[other] == s.failed[other]
            }
        }),
{
}

/// A decode is tried three times and no more: after a third failure the item on screen is
/// not decoded again, and after a first or second one it is.
pub proof fn decode_is_tried_three_times(
    s: CoordModel,
    items: Seq<Item>,
    cur: usize,
    disk: Seq<char>,
)
    requires
        cur < items.len(),
        !video_path(items[cur as int].media()),
        !(items[cur as int] is Container),
        !s.decoded.contains(cur),
        s.failed.contains_key(cur) ==> s.failed[cur] <= 3,
    ensures
        ({
            let failed = s.after_decode(cur, DecodeOutcome::Failed, disk);
            let again = failed.step(items, cur as int).0.priority == Some(cur as int);
            again <==> !s.failed.contains_key(cur) || s.failed[cur] < 2
        }),
        s.failed.contains_key(cur) && s.failed[cur] < 3 ==> s.after_decode(
            cur,
            DecodeOutcome::Aborted,
            disk,
        ).step(items, cur as int).0.priority == Some(cur as int),
{
}

} // verus!
