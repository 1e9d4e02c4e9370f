//! Video playback: the player's state, and the commands that it has libvlc carry
//! out.

use crate::archive::{has_ext, has_extension, texts};
use crate::path::{child, child_is_put_behind, join};
use vstd::prelude::*;

verus! {

/// Whether a path names a video file.
pub open spec fn video_path(path: Seq<char>) -> bool {
    has_extension(
        path,
        seq![
            "mp4"@,
            "mov"@,
            "m4v"@,
            "mkv"@,
            "webm"@,
            "avi"@,
            "wmv"@,
            "flv"@,
            "mpg"@,
            "mpeg"@,
            "ts"@,
            "m2ts"@,
            "3gp"@,
        ],
    )
}

pub fn is_video_file(path: &str) -> (r: bool)
    ensures
        r == video_path(path@),
{
    let exts = [
        "mp4",
        "mov",
        "m4v",
        "mkv",
        "webm",
        "avi",
        "wmv",
        "flv",
        "mpg",
        "mpeg",
        "ts",
        "m2ts",
        "3gp",
    ];
    assert(texts(exts@) =~= seq![
        "mp4"@,
        "mov"@,
        "m4v"@,
        "mkv"@,
        "webm"@,
        "avi"@,
        "wmv"@,
        "flv"@,
        "mpg"@,
        "mpeg"@,
        "ts"@,
        "m2ts"@,
        "3gp"@,
    ]);
    has_ext(path, &exts)
}

/// How far one seek key goes, in milliseconds.
pub const SEEK_STEP: i64 = 5000;

/// Minimum gap between seek commands handed to libvlc.
pub const SEEK_FLUSH_MS: u64 = 200;

/// How long a sent seek keeps serving as the base and readback position while
/// libvlc catches up.
pub const SEEK_SETTLE_MS: u64 = 800;

/// A command for libvlc's media player.
#[derive(Clone, Copy, PartialEq, Eq, Structural, Debug)]
pub enum Command {
    SetPause(bool),
    SetMute(bool),
    /// Audio volume in percent.
    SetVolume(u32),
    /// Playback position in milliseconds.
    SetTime(u64),
}

/// What the player is told by the clock and by libvlc.
#[derive(Clone, Copy, PartialEq, Eq, Structural)]
pub struct Clock {
    /// A monotonic clock, in milliseconds.
    pub now: u64,
    /// libvlc's playback time in milliseconds; negative while there is none.
    pub vlc_time: i64,
}

/// The playback position that libvlc reports.
pub open spec fn vlc_position(vlc_time: i64) -> u64 {
    if vlc_time < 0 {
        0
    } else {
        vlc_time as u64
    }
}

/// `base` moved by `delta`, not before the start.
pub open spec fn moved(base: u64, delta: i64) -> u64 {
    if base + delta < 0 {
        0
    } else if base + delta > u64::MAX {
        u64::MAX
    } else {
        (base + delta) as u64
    }
}

/// The keys that act on a video. The seek keys go back and forth, and the turn keys
/// turn the view a quarter or set it upright.
#[derive(Clone, Copy)]
pub struct VideoKeys {
    pub seek_back: bool,
    pub seek_forward: bool,
    pub mute: bool,
    pub clockwise: bool,
    pub counterclockwise: bool,
    pub upright: bool,
}

/// A player's playback state.
#[derive(Clone, Copy)]
pub struct VideoPlayer {
    pub paused: bool,
    pub muted: bool,
    /// Volume in whole percent, and whether it is above zero at all.
    pub volume: u32,
    pub audible: bool,
    pub scrubbing: bool,
    /// Seek target not yet handed to libvlc. Rapid seeks accumulate here and
    /// flush at most once per [`SEEK_FLUSH_MS`], so that libvlc never queues a
    /// backlog of restarts.
    pub pending_seek: Option<u64>,
    /// Last target sent to libvlc and when; the base for chained relative seeks
    /// and the throttle clock for the next flush.
    pub sent_seek: Option<(u64, u64)>,
    /// Position to restore once libvlc's input is live: a seek issued right after
    /// the start is dropped.
    pub resume_at: Option<u64>,
    /// View rotation in clockwise quarter turns.
    pub rotation: u8,
    /// Last applied rotation, width and height; skips redundant layout.
    pub last_layout: Option<(u8, u32, u32)>,
}

/// The state of a player whose video has just started.
pub open spec fn fresh_player() -> VideoPlayer {
    VideoPlayer {
        paused: false,
        muted: false,
        volume: 100,
        audible: true,
        scrubbing: false,
        pending_seek: None,
        sent_seek: None,
        resume_at: None,
        rotation: 0,
        last_layout: None,
    }
}

impl VideoPlayer {
    /// Rotations are quarter turns.
    pub open spec fn wf(self) -> bool {
        self.rotation < 4
    }

    /// Whether the last seek was sent so recently that the next one has to wait.
    pub open spec fn is_throttled(self, now: u64) -> bool {
        self.sent_seek matches Some(s) && (now < s.1 || now - s.1 < SEEK_FLUSH_MS)
    }

    /// The last sent target, while libvlc is still likely working on it.
    pub open spec fn settling(self, now: u64) -> Option<u64> {
        match self.sent_seek {
            Some(s) => if now < s.1 || now - s.1 < SEEK_SETTLE_MS {
                Some(s.0)
            } else {
                None
            },
            None => None,
        }
    }

    /// The state after, and the command for, handing the pending target to
    /// libvlc. Only the newest target is ever sent.
    pub open spec fn flushed(self, force: bool, now: u64) -> (VideoPlayer, Option<Command>) {
        match self.pending_seek {
            Some(t) => if self.is_throttled(now) && !force {
                (self, None)
            } else {
                (
                    VideoPlayer { pending_seek: None, sent_seek: Some((t, now)), ..self },
                    Some(Command::SetTime(t)),
                )
            },
            None => (self, None),
        }
    }

    pub open spec fn sought(self, target: u64, now: u64) -> (VideoPlayer, Option<Command>) {
        (VideoPlayer { pending_seek: Some(target), ..self }).flushed(false, now)
    }

    /// The position the player is at or headed to.
    pub open spec fn headed(self, clock: Clock) -> u64 {
        match (self.resume_at, self.pending_seek, self.settling(clock.now)) {
            (Some(t), _, _) => t,
            (None, Some(t), _) => t,
            (None, None, Some(t)) => t,
            (None, None, None) => vlc_position(clock.vlc_time),
        }
    }

    /// The base of a relative seek: the newest requested target rather than the
    /// possibly stale playback clock.
    pub open spec fn seek_base(self, clock: Clock) -> u64 {
        match (self.pending_seek, self.settling(clock.now)) {
            (Some(t), _) => t,
            (None, Some(t)) => t,
            (None, None) => vlc_position(clock.vlc_time),
        }
    }

    /// The state after, and the command for, a seek relative to the newest
    /// requested target.
    pub open spec fn jumped(self, delta: i64, clock: Clock) -> (VideoPlayer, Option<Command>) {
        self.sought(moved(self.seek_base(clock), delta), clock.now)
    }

    /// The state after a frame, its commands, and after how long the next one is wanted.
    pub open spec fn updated(self, clock: Clock) -> (VideoPlayer, Seq<Command>, Option<u64>) {
        let (resumed, first) = match self.resume_at {
            Some(t) => if clock.vlc_time >= 0 {
                (VideoPlayer { resume_at: None, ..self }).sought(t, clock.now)
            } else {
                (self, None)
            },
            None => (self, None),
        };
        let (after, second) = resumed.flushed(false, clock.now);
        (
            after,
            command_list(first) + command_list(second),
            if self.resume_at is Some || resumed.pending_seek is Some {
                Some(50u64)
            } else if !self.paused {
                Some(100u64)
            } else {
                None
            },
        )
    }

    /// The view turned by so many clockwise quarter turns.
    pub open spec fn turned(self, quarters: int) -> VideoPlayer {
        VideoPlayer { rotation: ((self.rotation + quarters) % 4) as u8, ..self }
    }

    /// The state after a layout for a window of the given size, and whether it changed.
    pub open spec fn laid_out(self, width: u32, height: u32) -> (VideoPlayer, bool) {
        let layout = Some((self.rotation, width, height));
        (VideoPlayer { last_layout: layout, ..self }, self.last_layout != layout)
    }

    pub open spec fn pause_toggled(self) -> (VideoPlayer, Command) {
        (VideoPlayer { paused: !self.paused, ..self }, Command::SetPause(!self.paused))
    }

    pub open spec fn mute_toggled(self) -> (VideoPlayer, Command) {
        (VideoPlayer { muted: !self.muted, ..self }, Command::SetMute(!self.muted))
    }

    /// The state after, and the commands for, setting the volume.
    pub open spec fn with_volume(self, percent: u32, audible: bool) -> (VideoPlayer, Seq<Command>) {
        let volume: u32 = if percent > 100 {
            100
        } else {
            percent
        };
        (
            VideoPlayer { volume, audible, muted: self.muted && !audible, ..self },
            if audible {
                seq![Command::SetMute(false), Command::SetVolume(volume)]
            } else {
                seq![Command::SetVolume(volume)]
            },
        )
    }

    /// The state after, and the commands for, the keys pressed in one frame.
    pub open spec fn pressed(self, keys: VideoKeys, clock: Clock) -> (VideoPlayer, Seq<Command>) {
        let (back, first) = if keys.seek_back {
            self.jumped((-SEEK_STEP) as i64, clock)
        } else {
            (self, None)
        };
        let (forth, second) = if keys.seek_forward {
            back.jumped(SEEK_STEP, clock)
        } else {
            (back, None)
        };
        let muted = forth.muted != keys.mute;
        let turns = (if keys.clockwise {
            1int
        } else {
            0
        }) + (if keys.counterclockwise {
            3int
        } else {
            0
        });
        (
            VideoPlayer {
                muted,
                rotation: if keys.upright {
                    0
                } else {
                    ((forth.rotation + turns) % 4) as u8
                },
                ..forth
            },
            command_list(first) + command_list(second) + command_list(
                if keys.mute {
                    Some(Command::SetMute(muted))
                } else {
                    None
                },
            ),
        )
    }

    /// The state after, and the commands for, dragging the seek bar to `target`.
    pub open spec fn scrubbed(self, target: u64, now: u64) -> (VideoPlayer, Seq<Command>) {
        let (after, seek) = (VideoPlayer { scrubbing: true, ..self }).sought(target, now);
        (
            after,
            if self.scrubbing {
                command_list(seek)
            } else {
                seq![Command::SetMute(true)] + command_list(seek)
            },
        )
    }

    /// The state after, and the commands for, letting go of the seek bar.
    pub open spec fn scrub_ended(self, now: u64) -> (VideoPlayer, Seq<Command>) {
        if self.scrubbing {
            let (after, seek) = (VideoPlayer { scrubbing: false, ..self }).flushed(true, now);
            (after, command_list(seek).push(Command::SetMute(self.muted)))
        } else {
            (self, Seq::empty())
        }
    }

    /// A player whose video has just started.
    pub fn start() -> (r: Self)
        ensures
            r == fresh_player(),
            r.wf(),
    {
        VideoPlayer {
            paused: false,
            muted: false,
            volume: 100,
            audible: true,
            scrubbing: false,
            pending_seek: None,
            sent_seek: None,
            resume_at: None,
            rotation: 0,
            last_layout: None,
        }
    }

    /// What happens once per frame: a position to resume from is sought as soon
    /// as playback runs, and a held-back seek is sent when its time has come.
    /// Returns the commands in order, and after how many milliseconds the next
    /// frame is wanted: soon while a seek is waiting, at leisure while playing,
    /// and never while paused.
    pub fn update(&mut self, clock: Clock) -> (r: (Vec<Command>, Option<u64>))
        ensures
            (*final(self), r.0@, r.1) == old(self).updated(clock),
    {
        let mut commands: Vec<Command> = Vec::new();
        let mut wake: Option<u64> = if self.paused {
            None
        } else {
            Some(100)
        };
        let ghost mut first: Option<Command> = None;
        if let Some(t) = self.resume_at {
            if clock.vlc_time >= 0 {
                self.resume_at = None;
                let c = self.seek_to(t, clock.now);
                proof {
                    first = c;
                }
                push_command(&mut commands, c);
            }
            wake = Some(50);
        }
        assert(commands@ =~= command_list(first));
        if self.pending_seek.is_some() {
            let c = self.flush_seek(false, clock.now);
            push_command(&mut commands, c);
            wake = Some(50);
        }
        (commands, wake)
    }

    /// Turn the view by `quarters` clockwise quarter turns; three are one turn
    /// counterclockwise.
    pub fn rotate(&mut self, quarters: u8)
        requires
            old(self).rotation + quarters <= u8::MAX,
        ensures
            *final(self) == old(self).turned(quarters as int),
            final(self).wf(),
    {
        self.rotation = (self.rotation + quarters) % 4;
    }

    pub fn reset_rotation(&mut self)
        ensures
            *final(self) == (VideoPlayer { rotation: 0, ..*old(self) }),
    {
        self.rotation = 0;
    }

    /// Whether the view has to be laid out again for a window of the given size.
    pub fn layout(&mut self, width: u32, height: u32) -> (r: bool)
        ensures
            (*final(self), r) == old(self).laid_out(width, height),
    {
        let changed: bool = match self.last_layout {
            Some((r, w, h)) => r != self.rotation || w != width || h != height,
            None => true,
        };
        self.last_layout = Some((self.rotation, width, height));
        changed
    }

    pub fn toggle_pause(&mut self) -> (r: Command)
        ensures
            (*final(self), r) == old(self).pause_toggled(),
    {
        self.paused = !self.paused;
        Command::SetPause(self.paused)
    }

    pub fn toggle_mute(&mut self) -> (r: Command)
        ensures
            (*final(self), r) == old(self).mute_toggled(),
    {
        self.muted = !self.muted;
        Command::SetMute(self.muted)
    }

    /// Set the volume, in whole percent up to 100 and whether it is above zero at
    /// all. An audible volume unmutes, matching what most players do.
    pub fn set_volume(&mut self, percent: u32, audible: bool) -> (r: Vec<Command>)
        ensures
            (*final(self), r@) == old(self).with_volume(percent, audible),
    {
        let volume: u32 = if percent > 100 {
            100
        } else {
            percent
        };
        self.volume = volume;
        self.audible = audible;
        let mut commands: Vec<Command> = Vec::new();
        if audible {
            self.muted = false;
            commands.push(Command::SetMute(false));
        }
        commands.push(Command::SetVolume(volume));
        assert(audible ==> commands@ =~= seq![
            Command::SetMute(false),
            Command::SetVolume(volume),
        ]);
        assert(!audible ==> commands@ =~= seq![Command::SetVolume(volume)]);
        commands
    }

    /// The volume in whole percent.
    pub fn volume(&self) -> (r: u32)
        ensures
            r == self.volume,
    {
        self.volume
    }

    /// Seek relative to the newest requested target, so that mashed presses chain
    /// into one accumulated jump.
    pub fn seek_by(&mut self, delta: i64, clock: Clock) -> (r: Option<Command>)
        ensures
            (*final(self), r) == old(self).jumped(delta, clock),
    {
        let base: u64 = match self.pending_seek {
            Some(t) => t,
            None => match self.recent_seek_target(clock.now) {
                Some(t) => t,
                None => reported_position(clock.vlc_time),
            },
        };
        let sum: i128 = base as i128 + delta as i128;
        let target: u64 = if sum < 0 {
            0
        } else if sum > u64::MAX as i128 {
            u64::MAX
        } else {
            sum as u64
        };
        self.seek_to(target, clock.now)
    }

    pub fn seek_to(&mut self, target: u64, now: u64) -> (r: Option<Command>)
        ensures
            (*final(self), r) == old(self).sought(target, now),
    {
        self.pending_seek = Some(target);
        self.flush_seek(false, now)
    }

    /// Hand the pending target to libvlc, at most once per [`SEEK_FLUSH_MS`]
    /// unless forced. The last value wins; superseded targets are never sent.
    fn flush_seek(&mut self, force: bool, now: u64) -> (r: Option<Command>)
        ensures
            (*final(self), r) == old(self).flushed(force, now),
    {
        let target: u64 = match self.pending_seek {
            Some(t) => t,
            None => return None,
        };
        let throttled: bool = match self.sent_seek {
            Some((_, at)) => now < at || now - at < SEEK_FLUSH_MS,
            None => false,
        };
        if throttled && !force {
            return None;
        }
        self.pending_seek = None;
        self.sent_seek = Some((target, now));
        Some(Command::SetTime(target))
    }

    /// The last sent target, while libvlc is still likely working on it.
    fn recent_seek_target(&self, now: u64) -> (r: Option<u64>)
        ensures
            r == self.settling(now),
    {
        match self.sent_seek {
            Some((t, at)) => if now < at || now - at < SEEK_SETTLE_MS {
                Some(t)
            } else {
                None
            },
            None => None,
        }
    }

    /// Act on the keys pressed in one frame. Returns the commands in order.
    pub fn press(&mut self, keys: VideoKeys, clock: Clock) -> (r: Vec<Command>)
        requires
            old(self).wf(),
        ensures
            (*final(self), r@) == old(self).pressed(keys, clock),
            final(self).wf(),
    {
        let mut commands: Vec<Command> = Vec::new();
        let first: Option<Command> = if keys.seek_back {
            self.seek_by(-SEEK_STEP, clock)
        } else {
            None
        };
        push_command(&mut commands, first);
        assert(commands@ =~= command_list(first));
        let second: Option<Command> = if keys.seek_forward {
            self.seek_by(SEEK_STEP, clock)
        } else {
            None
        };
        push_command(&mut commands, second);
        let third: Option<Command> = if keys.mute {
            Some(self.toggle_mute())
        } else {
            None
        };
        push_command(&mut commands, third);
        if keys.clockwise {
            self.rotate(1);
        }
        if keys.counterclockwise {
            self.rotate(3);
        }
        if keys.upright {
            self.reset_rotation();
        }
        commands
    }

    /// Seek while the seek bar is dragged. Each seek on the way would spit out a
    /// burst of audio, so the output is muted for the duration of the drag.
    pub fn scrub_to(&mut self, target: u64, now: u64) -> (r: Vec<Command>)
        ensures
            (*final(self), r@) == old(self).scrubbed(target, now),
    {
        let mut commands: Vec<Command> = Vec::new();
        let ghost muted: Option<Command> = if self.scrubbing {
            None
        } else {
            Some(Command::SetMute(true))
        };
        if !self.scrubbing {
            self.scrubbing = true;
            commands.push(Command::SetMute(true));
        }
        assert(commands@ =~= command_list(muted));
        let c = self.seek_to(target, now);
        push_command(&mut commands, c);
        assert(commands@ =~= command_list(muted) + command_list(c));
        commands
    }

    /// Finish a scrub: land on the final drag position, then undo the scrub's
    /// mute, leaving the user's own mute intact.
    pub fn end_scrub(&mut self, now: u64) -> (r: Vec<Command>)
        ensures
            (*final(self), r@) == old(self).scrub_ended(now),
    {
        let mut commands: Vec<Command> = Vec::new();
        if self.scrubbing {
            self.scrubbing = false;
            let c = self.flush_seek(true, now);
            push_command(&mut commands, c);
            assert(commands@ =~= command_list(c));
            commands.push(Command::SetMute(self.muted));
        }
        commands
    }

    /// The position the player is at or headed to, in milliseconds: an unflushed
    /// or running seek target reads back immediately, so that the seek bar tracks
    /// rapid presses without waiting on libvlc.
    pub fn position(&self, clock: Clock) -> (r: u64)
        ensures
            r == self.headed(clock),
    {
        if let Some(t) = self.resume_at {
            return t;
        }
        if let Some(t) = self.pending_seek {
            return t;
        }
        match self.recent_seek_target(clock.now) {
            Some(t) => t,
            None => reported_position(clock.vlc_time),
        }
    }

    /// Continue from `t` as soon as playback has started.
    pub fn resume_from(&mut self, t: u64)
        ensures
            *final(self) == (VideoPlayer { resume_at: Some(t), ..*old(self) }),
    {
        self.resume_at = Some(t);
    }

    /// How long the video is, given the length that libvlc reports, which is
    /// negative while it is unknown.
    pub fn duration(&self, vlc_length: i64) -> (r: u64)
        ensures
            r == vlc_position(vlc_length),
    {
        reported_position(vlc_length)
    }

    pub fn is_paused(&self) -> (r: bool)
        ensures
            r == self.paused,
    {
        self.paused
    }

    pub fn is_muted(&self) -> (r: bool)
        ensures
            r == self.muted,
    {
        self.muted
    }
}

/// A position or duration that libvlc reports, in milliseconds; none counts as 0.
pub fn reported_position(ms: i64) -> (r: u64)
    ensures
        r == vlc_position(ms),
{
    if ms < 0 {
        0
    } else {
        ms as u64
    }
}

pub open spec fn command_list(c: Option<Command>) -> Seq<Command> {
    match c {
        Some(c) => seq![c],
        None => Seq::empty(),
    }
}

fn push_command(out: &mut Vec<Command>, c: Option<Command>)
    ensures
        final(out)@ == old(out)@ + command_list(c),
{
    if let Some(c) = c {
        out.push(c);
    }
    assert(out@ =~= old(out)@ + command_list(c));
}

/// After a seek the player reads back the target at once, whether or not libvlc
/// has been told yet.
pub proof fn seek_reads_back(p: VideoPlayer, target: u64, clock: Clock)
    requires
        p.resume_at is None,
    ensures
        p.sought(target, clock.now).0.headed(clock) == target,
        p.sought(target, clock.now).0.seek_base(clock) == target,
{
}

/// Mashed relative seeks add up: two in a row land where one of both lengths
/// together does, as long as the start is not reached in between.
pub proof fn relative_seeks_accumulate(p: VideoPlayer, a: i64, b: i64, clock: Clock)
    requires
        p.resume_at is None,
        0 <= p.seek_base(clock) + a <= u64::MAX,
        i64::MIN <= a + b <= i64::MAX,
    ensures
        ({
            let once = p.jumped((a + b) as i64, clock).0;
            let twice = p.jumped(a, clock).0.jumped(b, clock).0;
            once.headed(clock) == twice.headed(clock)
        }),
{
}

/// Unless forced, libvlc is sent at most one seek within the flush interval.
pub proof fn seeks_are_rate_limited(p: VideoPlayer, first: u64, second: u64, t1: u64, t2: u64)
    requires
        p.sought(first, t1).1 is Some,
        t1 <= t2 < t1 + SEEK_FLUSH_MS,
    ensures
        p.sought(first, t1).0.sought(second, t2).1 is None,
        p.sought(first, t1).0.sought(second, t2).0.pending_seek == Some(second),
{
}

/// A held-back seek is sent by the first flush after the flush interval.
pub proof fn held_back_seek_is_sent(p: VideoPlayer, target: u64, now: u64)
    requires
        p.pending_seek == Some(target),
        !p.is_throttled(now),
    ensures
        p.flushed(false, now).1 == Some(Command::SetTime(target)),
        p.flushed(false, now).0.pending_seek is None,
{
}

/// Four quarter turns, or one forth and one back, leave the view as it was.
pub proof fn quarter_turns_cancel(rotation: u8)
    requires
        rotation < 4,
    ensures
        ((rotation + 1) % 4 + 3) % 4 == rotation,
        ((rotation + 3) % 4 + 1) % 4 == rotation,
        ((((rotation + 1) % 4 + 1) % 4 + 1) % 4 + 1) % 4 == rotation,
{
}

/// Backing store for archive playback, which libvlc pulls the media from.
pub enum StreamSrc {
    /// A decompressed archive entry held in memory.
    Mem { data: Vec<u8>, pos: usize },
    /// A byte range of a file on disk, which the caller reads from.
    File { start: u64, len: u64, offset: u64 },
}

/// Where the next bytes of a stream are.
#[derive(Clone, Copy, PartialEq, Eq, Structural, Debug)]
pub enum Served {
    /// The bytes `from..to` of the data in memory; they count as read.
    Mem { from: usize, to: usize },
    /// `len` bytes of the file from `offset` on; what was read of them has to be
    /// reported with [`StreamSrc::advance`].
    File { offset: u64, len: usize },
}

impl StreamSrc {
    pub open spec fn size(self) -> int {
        match self {
            StreamSrc::Mem { data, .. } => data@.len() as int,
            StreamSrc::File { len, .. } => len as int,
        }
    }

    pub open spec fn at(self) -> int {
        match self {
            StreamSrc::Mem { pos, .. } => pos as int,
            StreamSrc::File { offset, .. } => offset as int,
        }
    }

    /// The position is inside the stream, and the stream inside the file.
    pub open spec fn wf(self) -> bool {
        &&& self.at() <= self.size()
        &&& self matches StreamSrc::File { start, len, .. } ==> start + len <= u64::MAX
    }

    /// The same stream at another position.
    pub open spec fn moved_to(self, to: int) -> StreamSrc {
        match self {
            StreamSrc::Mem { data, .. } => StreamSrc::Mem { data, pos: to as usize },
            StreamSrc::File { start, len, .. } => StreamSrc::File { start, len, offset: to as u64 },
        }
    }

    /// How many of `want` bytes are left.
    pub open spec fn available(self, want: usize) -> int {
        if want <= self.size() - self.at() {
            want as int
        } else {
            self.size() - self.at()
        }
    }

    /// Where the next bytes are, at most `want` of them.
    pub open spec fn served(self, want: usize) -> Served {
        match self {
            StreamSrc::Mem { pos, .. } => Served::Mem {
                from: pos,
                to: (pos + self.available(want)) as usize,
            },
            StreamSrc::File { start, offset, .. } => Served::File {
                offset: (start + offset) as u64,
                len: self.available(want) as usize,
            },
        }
    }

    pub fn len(&self) -> (r: u64)
        ensures
            r == self.size(),
    {
        match self {
            StreamSrc::Mem { data, .. } => data.len() as u64,
            StreamSrc::File { len, .. } => *len,
        }
    }

    fn set_pos(&mut self, to: u64)
        requires
            to <= old(self).size(),
        ensures
            *final(self) == old(self).moved_to(to as int),
    {
        match self {
            StreamSrc::Mem { pos, .. } => {
                *pos = to as usize;
            },
            StreamSrc::File { offset, .. } => {
                *offset = to;
            },
        }
    }

    /// Open the stream: it starts at the beginning, also when a loop reopens it.
    /// Returns its size.
    pub fn open(&mut self) -> (r: u64)
        requires
            old(self).wf(),
        ensures
            *final(self) == old(self).moved_to(0),
            r == old(self).size(),
            final(self).wf(),
    {
        self.set_pos(0);
        self.len()
    }

    /// Where the next bytes are, at most `want` of them.
    pub fn read(&mut self, want: usize) -> (r: Served)
        requires
            old(self).wf(),
        ensures
            r == old(self).served(want),
            *final(self) == (if *old(self) is Mem {
                old(self).moved_to(old(self).at() + old(self).available(want))
            } else {
                *old(self)
            }),
            final(self).wf(),
    {
        match self {
            StreamSrc::Mem { data, pos } => {
                let from: usize = *pos;
                let left: usize = data.len() - from;
                let n: usize = if want <= left {
                    want
                } else {
                    left
                };
                *pos = from + n;
                Served::Mem { from, to: from + n }
            },
            StreamSrc::File { start, len, offset } => {
                let left: u64 = *len - *offset;
                let n: usize = if want as u64 <= left {
                    want
                } else {
                    left as usize
                };
                Served::File { offset: *start + *offset, len: n }
            },
        }
    }

    /// `n` bytes have been read from the file.
    pub fn advance(&mut self, n: usize)
        requires
            old(self).wf(),
            old(self).at() + n <= old(self).size(),
        ensures
            *final(self) == old(self).moved_to(old(self).at() + n),
            final(self).wf(),
    {
        match self {
            StreamSrc::Mem { data, pos } => {
                let size: usize = data.len();
                assert(*pos + n <= size);
                *pos = *pos + n;
            },
            StreamSrc::File { offset, .. } => {
                *offset = *offset + n as u64;
            },
        }
    }

    /// Go to `offset`; false, and nothing changes, if it lies past the end.
    pub fn seek(&mut self, offset: u64) -> (r: bool)
        requires
            old(self).wf(),
        ensures
            r == (offset <= old(self).size()),
            *final(self) == (if r {
                old(self).moved_to(offset as int)
            } else {
                *old(self)
            }),
            final(self).wf(),
    {
        if offset > self.len() {
            return false;
        }
        self.set_pos(offset);
        true
    }
}

/// After a seek, the bytes that are served start where was sought, and never lie
/// outside of the entry.
pub proof fn reads_start_where_sought(s: StreamSrc, to: int, want: usize)
    requires
        s.wf(),
        0 <= to <= s.size(),
    ensures
        s.moved_to(to).wf(),
        (match (s, s.moved_to(to).served(want)) {
            (StreamSrc::Mem { data, .. }, Served::Mem { from, to: end }) => from == to && from
                <= end <= data@.len() && (end - from == want || end == data@.len()),
            (StreamSrc::File { start, len, .. }, Served::File { offset, len: n }) => offset == start
                + to && offset + n <= start + len && (n == want || offset + n == start + len),
            _ => false,
        }),
{
    match s {
        StreamSrc::Mem { data, .. } => {
            assert(data@.len() == data.len());
        },
        _ => {},
    }
}

/// Where libvlc's plugins may be: beside the executable's directory `dir`, in the
/// project's own directory `manifest`, and in the usual system places.
pub open spec fn plugin_places(dir: Option<Seq<char>>, manifest: Seq<char>) -> Seq<Seq<char>> {
    (match dir {
        Some(d) => seq![
            child(d, "../Frameworks/plugins"@),
            child(d, "Frameworks/plugins"@),
            child(d, "plugins"@),
        ],
        None => Seq::empty(),
    }) + seq![
        manifest + "/vendor/vlc/plugins"@,
        "/opt/homebrew/lib/vlc/plugins"@,
        "/usr/local/lib/vlc/plugins"@,
    ]
}

/// The candidates for libvlc's plugin directory, in the order they are tried.
pub fn plugin_candidates(dir: Option<&str>, manifest: &str) -> (r: Vec<String>)
    ensures
        r@.map_values(|s: String| s@) == plugin_places(
            match dir {
                Some(d) => Some(d@),
                None => None,
            },
            manifest@,
        ),
{
    let mut out: Vec<String> = Vec::new();
    if let Some(d) = dir {
        out.push(join(d, "../Frameworks/plugins"));
        out.push(join(d, "Frameworks/plugins"));
        out.push(join(d, "plugins"));
    }
    let mut vendored = manifest.to_string();
    vendored.append("/vendor/vlc/plugins");
    out.push(vendored);
    out.push("/opt/homebrew/lib/vlc/plugins".to_string());
    out.push("/usr/local/lib/vlc/plugins".to_string());
    assert(out@.map_values(|s: String| s@) =~= plugin_places(
        match dir {
            Some(d) => Some(d@),
            None => None,
        },
        manifest@,
    ));
    out
}

/// The player with its seeking state replaced, and nothing else.
pub open spec fn with_seeks(
    p: VideoPlayer,
    pending: Option<u64>,
    sent: Option<(u64, u64)>,
    resume: Option<u64>,
) -> VideoPlayer {
    VideoPlayer { pending_seek: pending, sent_seek: sent, resume_at: resume, ..p }
}

/// If no seek was sent within the last 200 milliseconds, or none ever, a seek is handed to
/// libvlc at once, whatever else the player is doing, paused or not.
pub proof fn seek_is_sent_at_once(p: VideoPlayer, target: u64, now: u64)
    requires
        p.sent_seek matches Some(s) ==> s.1 + 200 <= now,
    ensures
        p.sought(target, now).1 == Some(Command::SetTime(target)),
        p.sought(target, now).0 == with_seeks(p, None, Some((target, now)), p.resume_at),
{
}

/// Within 200 milliseconds of the last sent seek, a seek is held back and replaces the one
/// that was waiting; nothing is sent.
pub proof fn early_seek_is_held_back(p: VideoPlayer, target: u64, now: u64)
    requires
        p.sent_seek matches Some(s) && now < s.1 + 200,
    ensures
        p.sought(target, now).1 is None,
        p.sought(target, now).0 == with_seeks(p, Some(target), p.sent_seek, p.resume_at),
{
}

/// A held-back seek is sent by the first update at least 200 milliseconds after the last
/// sent one, and by no earlier one; the update asks to be called again soon as long as one
/// was waiting. Paused or not makes no difference.
pub proof fn waiting_seek_is_sent_by_update(p: VideoPlayer, target: u64, clock: Clock)
    requires
        p.pending_seek == Some(target),
        p.resume_at is None,
    ensures
        (p.sent_seek matches Some(s) ==> s.1 + 200 <= clock.now) ==> p.updated(clock).1 == seq![
            Command::SetTime(target),
        ] && p.updated(clock).0 == with_seeks(p, None, Some((target, clock.now)), None),
        (p.sent_seek matches Some(s) && clock.now < s.1 + 200) ==> p.updated(clock).1.len() == 0
            && p.updated(clock).0 == p,
        p.updated(clock).2 == Some(50u64),
{
    let sent = p.flushed(false, clock.now).1;
    assert(command_list(None::<Command>) + command_list(sent) =~= command_list(sent));
}

/// With nothing waiting, an update sends nothing and changes nothing; it asks to be called
/// again while the video plays, and not while it is paused.
pub proof fn idle_update_changes_nothing(p: VideoPlayer, clock: Clock)
    requires
        p.pending_seek is None,
        p.resume_at is None,
    ensures
        p.updated(clock).0 == p,
        p.updated(clock).1.len() == 0,
        p.updated(clock).2 == (if p.paused {
            None
        } else {
            Some(100u64)
        }),
{
}

/// A remembered position is sought as soon as libvlc reports a time, and not before; until
/// then it is kept.
pub proof fn remembered_position_is_sought(p: VideoPlayer, target: u64, clock: Clock)
    requires
        p.resume_at == Some(target),
        p.pending_seek is None,
    ensures
        clock.vlc_time < 0 ==> p.updated(clock).0 == p && p.updated(clock).1.len() == 0,
        clock.vlc_time >= 0 && (p.sent_seek matches Some(s) ==> s.1 + 200 <= clock.now)
            ==> p.updated(clock).1 == seq![Command::SetTime(target)] && p.updated(clock).0
            == with_seeks(p, None, Some((target, clock.now)), None),
        clock.vlc_time >= 0 && (p.sent_seek matches Some(s) && clock.now < s.1 + 200)
            ==> p.updated(clock).1.len() == 0 && p.updated(clock).0 == with_seeks(
            p,
            Some(target),
            p.sent_seek,
            None,
        ),
        p.updated(clock).2 == Some(50u64),
{
    let c = Some(Command::SetTime(target));
    assert(command_list(c) + command_list(None::<Command>) =~= seq![Command::SetTime(target)]);
}

/// The position that is shown: one to resume from first, then a waiting seek, then one that
/// was sent less than 800 milliseconds ago, and else what libvlc reports, or the start.
pub proof fn position_is_the_newest_request(p: VideoPlayer, clock: Clock)
    ensures
        p.resume_at matches Some(t) ==> p.headed(clock) == t,
        p.resume_at is None ==> (p.pending_seek matches Some(t) ==> p.headed(clock) == t),
        p.resume_at is None && p.pending_seek is None ==> (p.sent_seek matches Some(s) ==> (
        clock.now < s.1 + 800 ==> p.headed(clock) == s.0)),
        p.resume_at is None && p.pending_seek is None && (p.sent_seek matches Some(s) ==> s.1 + 800
            <= clock.now) ==> p.headed(clock) == (if clock.vlc_time >= 0 {
            clock.vlc_time as u64
        } else {
            0
        }),
{
}

/// A relative seek goes from the newest request, or from where the video is, by the given
/// time, and stops at the start.
pub proof fn relative_seek_goes_from_the_newest_request(p: VideoPlayer, delta: i64, clock: Clock)
    requires
        p.resume_at is None,
        p.headed(clock) + delta <= u64::MAX,
    ensures
        ({
            let target: u64 = if p.headed(clock) + delta >= 0 {
                (p.headed(clock) + delta) as u64
            } else {
                0
            };
            p.jumped(delta, clock) == p.sought(target, clock.now)
        }),
{
}

/// The keys: a seek key goes five seconds back or forth, the mute key mutes or unmutes, and
/// a turn key turns the view by a quarter or sets it upright. What has no key pressed stays,
/// and without any key nothing happens.
pub proof fn keys_act_alone(p: VideoPlayer, clock: Clock)
    requires
        p.rotation < 4,
    ensures
        ({
            let none = VideoKeys {
                seek_back: false,
                seek_forward: false,
                mute: false,
                clockwise: false,
                counterclockwise: false,
                upright: false,
            };
            let back = VideoKeys { seek_back: true, ..none };
            let forth = VideoKeys { seek_forward: true, ..none };
            let mute = VideoKeys { mute: true, ..none };
            let right = VideoKeys { clockwise: true, ..none };
            let left = VideoKeys { counterclockwise: true, ..none };
            let up = VideoKeys { upright: true, ..none };
            &&& p.pressed(none, clock) == (p, Seq::<Command>::empty())
            &&& p.pressed(back, clock).0 == p.jumped((-5000) as i64, clock).0
            &&& p.pressed(back, clock).1 == command_list(p.jumped((-5000) as i64, clock).1)
            &&& p.pressed(forth, clock).0 == p.jumped(5000, clock).0
            &&& p.pressed(forth, clock).1 == command_list(p.jumped(5000, clock).1)
            &&& p.pressed(mute, clock).0 == (VideoPlayer { muted: !p.muted, ..p })
            &&& p.pressed(mute, clock).1 == seq![Command::SetMute(!p.muted)]
            &&& p.pressed(right, clock) == (
                VideoPlayer {
                    rotation: if p.rotation == 3 {
                        0
                    } else {
                        (p.rotation + 1) as u8
                    },
                    ..p
                },
                Seq::<Command>::empty(),
            )
            &&& p.pressed(left, clock) == (
                VideoPlayer {
                    rotation: if p.rotation == 0 {
                        3
                    } else {
                        (p.rotation - 1) as u8
                    },
                    ..p
                },
                Seq::<Command>::empty(),
            )
            &&& p.pressed(up, clock) == (
                VideoPlayer { rotation: 0, ..p },
                Seq::<Command>::empty(),
            )
        }),
{
    let no = Seq::<Command>::empty();
    let a = command_list(p.jumped((-5000) as i64, clock).1);
    let b = command_list(p.jumped(5000, clock).1);
    let m = seq![Command::SetMute(!p.muted)];
    assert(no + no + no =~= no);
    assert(a + no + no =~= a);
    assert(no + b + no =~= b);
    assert(no + no + m =~= m);
}

/// Keys pressed together do what they do one after the other: back, forth, mute, turn.
pub proof fn keys_act_in_turn(p: VideoPlayer, keys: VideoKeys, clock: Clock)
    requires
        p.rotation < 4,
    ensures
        ({
            let none = VideoKeys {
                seek_back: false,
                seek_forward: false,
                mute: false,
                clockwise: false,
                counterclockwise: false,
                upright: false,
            };
            let a = p.pressed(VideoKeys { seek_back: keys.seek_back, ..none }, clock);
            let b = a.0.pressed(VideoKeys { seek_forward: keys.seek_forward, ..none }, clock);
            let c = b.0.pressed(VideoKeys { mute: keys.mute, ..none }, clock);
            let d = c.0.pressed(VideoKeys { clockwise: keys.clockwise, ..none }, clock);
            let e = d.0.pressed(VideoKeys { counterclockwise: keys.counterclockwise, ..none }, clock);
            let f = e.0.pressed(VideoKeys { upright: keys.upright, ..none }, clock);
            p.pressed(keys, clock) == (f.0, a.1 + b.1 + c.1)
        }),
{
    let none = VideoKeys {
        seek_back: false,
        seek_forward: false,
        mute: false,
        clockwise: false,
        counterclockwise: false,
        upright: false,
    };
    let a = p.pressed(VideoKeys { seek_back: keys.seek_back, ..none }, clock);
    let b = a.0.pressed(VideoKeys { seek_forward: keys.seek_forward, ..none }, clock);
    let c = b.0.pressed(VideoKeys { mute: keys.mute, ..none }, clock);
    assert(p.pressed(keys, clock).1 =~= a.1 + b.1 + c.1);
}

/// Dragging the seek bar mutes once, at its beginning, and seeks; the user's own mute is
/// not touched.
pub proof fn scrubbing_mutes_once(p: VideoPlayer, target: u64, now: u64)
    ensures
        ({
            let (after, commands) = p.scrubbed(target, now);
            let seek = p.sought(target, now);
            &&& after == (VideoPlayer { scrubbing: true, ..seek.0 })
            &&& after.muted == p.muted
            &&& p.scrubbing ==> commands == command_list(seek.1)
            &&& !p.scrubbing ==> commands.len() >= 1 && commands[0] == Command::SetMute(true)
                && commands.skip(1) == command_list(seek.1)
        }),
{
    let seek = p.sought(target, now);
    assert(seq![Command::SetMute(true)] + command_list(seek.1)
        =~= seq![Command::SetMute(true)] + command_list(p.sought(target, now).1));
    assert((seq![Command::SetMute(true)] + command_list(seek.1)).skip(1) =~= command_list(seek.1));
}

/// Letting go of the seek bar lands on the last place dragged to, however recently a seek
/// was sent, and then gives the sound back as the user had it. Without a drag there is
/// nothing to end.
pub proof fn scrub_ends_where_it_was_dragged(p: VideoPlayer, now: u64)
    ensures
        p.scrubbing ==> (p.pending_seek matches Some(t) ==> p.scrub_ended(now).1 == seq![
            Command::SetTime(t),
            Command::SetMute(p.muted),
        ] && p.scrub_ended(now).0 == (VideoPlayer {
            scrubbing: false,
            pending_seek: None,
            sent_seek: Some((t, now)),
            ..p
        })),
        p.scrubbing && p.pending_seek is None ==> p.scrub_ended(now).1 == seq![
            Command::SetMute(p.muted),
        ] && p.scrub_ended(now).0 == (VideoPlayer { scrubbing: false, ..p }),
        !p.scrubbing ==> p.scrub_ended(now) == (p, Seq::<Command>::empty()),
{
    if p.scrubbing {
        match p.pending_seek {
            Some(t) => {
                assert(p.scrub_ended(now).1 =~= seq![
                    Command::SetTime(t),
                    Command::SetMute(p.muted),
                ]);
            },
            None => {
                assert(p.scrub_ended(now).1 =~= seq![Command::SetMute(p.muted)]);
            },
        }
    }
}

/// A whole drag, however many places it passes, ends at the last one: that is what libvlc
/// was sent last, and the sound is as it was.
pub proof fn drag_lands_on_its_last_place(p: VideoPlayer, target: u64, t1: u64, t2: u64)
    ensures
        ({
            let dragged = p.scrubbed(target, t1).0;
            let (after, commands) = dragged.scrub_ended(t2);
            &&& after.sent_seek matches Some(s) && s.0 == target
            &&& after.pending_seek is None
            &&& !after.scrubbing
            &&& after.muted == p.muted
            &&& commands.last() == Command::SetMute(p.muted)
        }),
{
}

/// The volume is what was asked for, up to 100 percent; an audible one unmutes, and a
/// silent one leaves the mute as it is.
pub proof fn volume_is_what_was_asked_for(p: VideoPlayer, percent: u32, audible: bool)
    ensures
        ({
            let (after, commands) = p.with_volume(percent, audible);
            &&& percent <= 100 ==> after.volume == percent
            &&& percent > 100 ==> after.volume == 100
            &&& commands.last() == Command::SetVolume(after.volume)
            &&& after.audible == audible
            &&& audible ==> !after.muted && commands.len() == 2 && commands[0] == Command::SetMute(
                false,
            )
            &&& !audible ==> after.muted == p.muted && commands.len() == 1
            &&& after == (VideoPlayer {
                volume: after.volume,
                audible: after.audible,
                muted: after.muted,
                ..p
            })
        }),
{
}

/// Pausing and muting switch: the command says the new state, a second time undoes the
/// first, and nothing else changes.
pub proof fn pause_and_mute_switch(p: VideoPlayer)
    ensures
        p.pause_toggled().0.paused != p.paused,
        p.pause_toggled().1 == Command::SetPause(p.pause_toggled().0.paused),
        p.pause_toggled().0.pause_toggled().0 == p,
        p.mute_toggled().0.muted != p.muted,
        p.mute_toggled().1 == Command::SetMute(p.mute_toggled().0.muted),
        p.mute_toggled().0.mute_toggled().0 == p,
{
}

/// Turning by one quarter after another adds up, four quarters are none, and only the view
/// turns.
pub proof fn turns_add_up(p: VideoPlayer, a: int, b: int)
    requires
        p.rotation < 4,
        0 <= a <= 4,
        0 <= b <= 4,
    ensures
        p.turned(a).turned(b) == p.turned(a + b),
        p.turned(0) == p,
        p.turned(4) == p,
        p.rotation < 3 ==> p.turned(1).rotation == p.rotation + 1,
        p.rotation == 3 ==> p.turned(1).rotation == 0,
{
}

/// The view is laid out again exactly if its turn or the window's size is not that of the
/// last layout; twice the same is once too often.
pub proof fn layout_is_repeated_only_on_change(p: VideoPlayer, width: u32, height: u32, w: u32, h: u32)
    ensures
        p.last_layout is None ==> p.laid_out(width, height).1,
        p.laid_out(width, height).0.laid_out(w, h).1 <==> w != width || h != height,
        p.laid_out(width, height).0.turned(1).laid_out(width, height).1,
        p.laid_out(width, height).0 == (VideoPlayer {
            last_layout: p.laid_out(width, height).0.last_layout,
            ..p
        }),
{
}

/// A player starts playing, heard at full volume, upright, with nothing to seek.
pub proof fn player_starts_playing(clock: Clock)
    ensures
        !fresh_player().paused,
        !fresh_player().muted,
        !fresh_player().scrubbing,
        fresh_player().audible,
        fresh_player().volume == 100,
        fresh_player().rotation == 0,
        fresh_player().updated(clock) == (
            fresh_player(),
            Seq::<Command>::empty(),
            Some(100u64),
        ),
        clock.vlc_time >= 0 ==> fresh_player().headed(clock) == clock.vlc_time,
{
    assert(fresh_player().updated(clock).1 =~= Seq::<Command>::empty());
}

/// Reading a stream to its end, piece by piece, gives each byte once and in order: a piece
/// begins where the last one ended, is as long as was asked for or reaches the end, and a
/// stream at its end gives nothing.
pub proof fn stream_is_served_in_order(s: StreamSrc, want: usize)
    requires
        s.wf(),
    ensures
        s.available(want) <= want,
        s.at() + s.available(want) <= s.size(),
        s.available(want) == want || s.at() + s.available(want) == s.size(),
        s.moved_to(s.at() + s.available(want)).at() == s.at() + s.available(want),
        s.moved_to(s.at() + s.available(want)).size() == s.size(),
        (match (s, s.served(want)) {
            (StreamSrc::Mem { pos, .. }, Served::Mem { from, to }) => from == pos && to - from
                == s.available(want),
            (StreamSrc::File { start, offset, .. }, Served::File { offset: at, len }) => at == start
                + offset && len == s.available(want),
            _ => false,
        }),
{
    match s {
        StreamSrc::Mem { data, pos } => {
            assert(data@.len() == data.len());
        },
        _ => {},
    }
}

/// A stream's position is where it was put, and its size what it holds.
pub proof fn stream_goes_where_it_is_sent(data: Vec<u8>, pos: usize, start: u64, len: u64, offset: u64, to: u64)
    requires
        to <= data@.len(),
        to <= len,
    ensures
        (StreamSrc::Mem { data, pos }).size() == data@.len(),
        (StreamSrc::File { start, len, offset }).size() == len,
        (StreamSrc::Mem { data, pos }).moved_to(to as int) == (StreamSrc::Mem {
            data,
            pos: to as usize,
        }),
        (StreamSrc::Mem { data, pos }).moved_to(to as int).at() == to,
        (StreamSrc::File { start, len, offset }).moved_to(to as int) == (StreamSrc::File {
            start,
            len,
            offset: to,
        }),
{
    assert(data@.len() == data.len());
}

/// Libvlc's plugins are looked for beside the executable first, then in the project's own
/// directory, and last in the system's places.
pub proof fn own_plugins_come_first(dir: Seq<char>, manifest: Seq<char>)
    requires
        dir.len() > 0,
        dir.last() != '/',
    ensures
        plugin_places(Some(dir), manifest) == seq![
            dir + "/../Frameworks/plugins"@,
            dir + "/Frameworks/plugins"@,
            dir + "/plugins"@,
        ] + plugin_places(None, manifest),
        plugin_places(None, manifest) == seq![
            manifest + "/vendor/vlc/plugins"@,
            "/opt/homebrew/lib/vlc/plugins"@,
            "/usr/local/lib/vlc/plugins"@,
        ],
{
    reveal_strlit("/../Frameworks/plugins");
    reveal_strlit("/Frameworks/plugins");
    reveal_strlit("/plugins");
    reveal_strlit("../Frameworks/plugins");
    reveal_strlit("Frameworks/plugins");
    reveal_strlit("plugins");
    child_is_put_behind(dir, "../Frameworks/plugins"@);
    child_is_put_behind(dir, "Frameworks/plugins"@);
    child_is_put_behind(dir, "plugins"@);
    assert(child(dir, "../Frameworks/plugins"@) =~= dir + "/../Frameworks/plugins"@);
    assert(child(dir, "Frameworks/plugins"@) =~= dir + "/Frameworks/plugins"@);
    assert(child(dir, "plugins"@) =~= dir + "/plugins"@);
    assert(plugin_places(None, manifest) =~= seq![
        manifest + "/vendor/vlc/plugins"@,
        "/opt/homebrew/lib/vlc/plugins"@,
        "/usr/local/lib/vlc/plugins"@,
    ]);
}

} // verus!
