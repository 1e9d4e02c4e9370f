//! Where videos were left, so that coming back resumes there.

use crate::text::same_text;
use vstd::prelude::*;

verus! {

/// One remembered position.
pub struct Position {
    pub disk: String,
    pub media: String,
    pub ms: u64,
}

/// The positions that a list of entries stands for; later entries win.
pub open spec fn position_map(entries: Seq<Position>) -> Map<(Seq<char>, Seq<char>), u64>
    decreases entries.len(),
{
    if entries.len() == 0 {
        Map::empty()
    } else {
        let e = entries.last();
        position_map(entries.drop_last()).insert((e.disk@, e.media@), e.ms)
    }
}

/// Last playback position per video, by backing file and entry name.
pub struct Positions {
    entries: Vec<Position>,
}

impl View for Positions {
    type V = Map<(Seq<char>, Seq<char>), u64>;

    closed spec fn view(&self) -> Map<(Seq<char>, Seq<char>), u64> {
        position_map(self.entries@)
    }
}

impl Positions {
    pub fn new() -> (r: Self)
        ensures
            r@ == Map::<(Seq<char>, Seq<char>), u64>::empty(),
    {
        Positions { entries: Vec::new() }
    }

    /// The position remembered for a video.
    pub fn get(&self, disk: &str, media: &str) -> (r: Option<u64>)
        ensures
            r == (if self@.contains_key((disk@, media@)) {
                Some(self@[(disk@, media@)])
            } else {
                None
            }),
    {
        let ghost key = (disk@, media@);
        let mut i: usize = self.entries.len();
        assert(self.entries@.take(i as int) =~= self.entries@);
        while i > 0
            invariant
                key == (disk@, media@),
                i <= self.entries@.len(),
                self@.contains_key(key) == position_map(self.entries@.take(i as int)).contains_key(
                    key,
                ),
                self@.contains_key(key) ==> self@[key] == position_map(
                    self.entries@.take(i as int),
                )[key],
            decreases i,
        {
            let ghost upto = self.entries@.take(i as int);
            i = i - 1;
            assert(upto.drop_last() =~= self.entries@.take(i as int));
            assert(upto.last() == self.entries@[i as int]);
            let e = &self.entries[i];
            if same_text(e.disk.as_str(), disk) && same_text(e.media.as_str(), media) {
                return Some(e.ms);
            }
        }
        None
    }

    /// Remember a video's position.
    pub fn set(&mut self, disk: String, media: String, ms: u64)
        ensures
            final(self)@ == old(self)@.insert((disk@, media@), ms),
    {
        let ghost key = (disk@, media@);
        let ghost before = self.entries@;
        let mut kept: Vec<Position> = Vec::new();
        let n: usize = self.entries.len();
        assert(position_map(kept@) =~= position_map(before.take(0)).remove(key));
        for i in 0..n
            invariant
                key == (disk@, media@),
                self.entries@ == before,
                n == before.len(),
                position_map(kept@) == position_map(before.take(i as int)).remove(key),
        {
            let ghost upto = before.take(i + 1);
            assert(upto.drop_last() =~= before.take(i as int));
            let e = &self.entries[i];
            let ghost here = (e.disk@, e.media@);
            assert(upto.last() == *e);
            if !(same_text(e.disk.as_str(), disk.as_str()) && same_text(
                e.media.as_str(),
                media.as_str(),
            )) {
                let ghost so_far = kept@;
                kept.push(Position { disk: e.disk.clone(), media: e.media.clone(), ms: e.ms });
                assert(kept@.drop_last() =~= so_far);
                assert(position_map(kept@) =~= position_map(upto).remove(key));
            } else {
                assert(position_map(kept@) =~= position_map(upto).remove(key));
            }
        }
        assert(before.take(n as int) =~= before);
        let ghost so_far = kept@;
        kept.push(Position { disk, media, ms });
        assert(kept@.drop_last() =~= so_far);
        self.entries = kept;
        assert(self@ =~= position_map(before).insert(key, ms));
    }

    /// Forget all positions.
    pub fn clear(&mut self)
        ensures
            final(self)@ == Map::<(Seq<char>, Seq<char>), u64>::empty(),
    {
        self.entries = Vec::new();
    }
}

} // verus!
