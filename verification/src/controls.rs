//! The video control bar: what it says, when it shows, and what the pointer does
//! on it.

use crate::text::{
    decimal, decimal_reads_back, digit, is_digit, number, numeral_has_no_leading_zero, padded,
    padded_reads_back, push_decimal, push_padded,
};
use vstd::prelude::*;

verus! {

/// The text of a time in whole seconds: `m:ss`, or `h:mm:ss` from an hour on. A
/// time that is no finite number of seconds from 0 on shows as `0:00`.
pub open spec fn time_text(seconds: Option<u64>) -> Seq<char> {
    let total: nat = match seconds {
        Some(t) => t as nat,
        None => 0,
    };
    let h = total / 3600;
    let m = (total % 3600) / 60;
    let s = total % 60;
    if h > 0 {
        decimal(h) + ":"@ + padded(m, 2) + ":"@ + padded(s, 2)
    } else {
        decimal(m) + ":"@ + padded(s, 2)
    }
}

pub fn fmt_time(seconds: Option<u64>) -> (r: String)
    ensures
        r@ == time_text(seconds),
{
    let total: u64 = match seconds {
        Some(t) => t,
        None => 0,
    };
    let h: u64 = total / 3600;
    let m: u64 = (total % 3600) / 60;
    let s: u64 = total % 60;
    let mut out = String::new();
    assert(out@ =~= Seq::<char>::empty());
    if h > 0 {
        push_decimal(&mut out, h as u128);
        assert(out@ =~= decimal(h as nat));
        out.append(":");
        push_padded(&mut out, m as u128, 2);
        out.append(":");
    } else {
        push_decimal(&mut out, m as u128);
        assert(out@ =~= decimal(m as nat));
        out.append(":");
    }
    push_padded(&mut out, s as u128, 2);
    out
}

/// The status line over the seek bar. `volume` is in percent, and None while
/// nothing is heard.
pub open spec fn status_text(
    paused: bool,
    position: Option<u64>,
    duration: Option<u64>,
    volume: Option<u32>,
) -> Seq<char> {
    (if paused {
        "II"@
    } else {
        ">"@
    }) + "  "@ + time_text(position) + " / "@ + time_text(duration) + "      "@ + (match volume {
        Some(v) => "vol "@ + decimal(v as nat) + "%"@,
        None => "muted"@,
    })
}

pub fn status_line(
    paused: bool,
    position: Option<u64>,
    duration: Option<u64>,
    volume: Option<u32>,
) -> (r: String)
    ensures
        r@ == status_text(paused, position, duration, volume),
{
    let mut out = if paused {
        "II".to_string()
    } else {
        ">".to_string()
    };
    out.append("  ");
    out.append(fmt_time(position).as_str());
    out.append(" / ");
    out.append(fmt_time(duration).as_str());
    out.append("      ");
    match volume {
        Some(v) => {
            out.append("vol ");
            push_decimal(&mut out, v as u128);
            out.append("%");
        },
        None => {
            out.append("muted");
        },
    }
    assert(out@ =~= status_text(paused, position, duration, volume));
    out
}

/// Which icons the control bar shows, so that they are set only when they change.
pub struct Icons {
    pub paused: Option<bool>,
    pub muted: Option<bool>,
}

/// The name of the symbol to show on the play button.
pub open spec fn play_symbol(paused: bool) -> Seq<char> {
    if paused {
        "play.fill"@
    } else {
        "pause.fill"@
    }
}

/// The name of the symbol to show on the speaker.
pub open spec fn speaker_symbol(muted: bool) -> Seq<char> {
    if muted {
        "speaker.slash.fill"@
    } else {
        "speaker.wave.2.fill"@
    }
}

impl Icons {
    /// The symbol to put on the play button, if it changes.
    pub open spec fn new_play(self, paused: bool) -> Option<Seq<char>> {
        if self.paused == Some(paused) {
            None
        } else {
            Some(play_symbol(paused))
        }
    }

    /// The symbol to put on the speaker, if it changes.
    pub open spec fn new_speaker(self, muted: bool) -> Option<Seq<char>> {
        if self.muted == Some(muted) {
            None
        } else {
            Some(speaker_symbol(muted))
        }
    }

    /// Nothing has been shown yet.
    pub fn new() -> (r: Self)
        ensures
            r.paused is None,
            r.muted is None,
    {
        Icons { paused: None, muted: None }
    }

    /// The symbol to put on the play button, if it changes.
    pub fn update_play(&mut self, paused: bool) -> (r: Option<&'static str>)
        ensures
            (match r {
                Some(name) => old(self).new_play(paused) == Some(name@),
                None => old(self).new_play(paused) is None,
            }),
            final(self).paused == Some(paused),
            final(self).muted == old(self).muted,
    {
        if self.paused == Some(paused) {
            return None;
        }
        self.paused = Some(paused);
        if paused {
            Some("play.fill")
        } else {
            Some("pause.fill")
        }
    }

    /// The symbol to put on the speaker, if it changes.
    pub fn update_speaker(&mut self, muted: bool) -> (r: Option<&'static str>)
        ensures
            (match r {
                Some(name) => old(self).new_speaker(muted) == Some(name@),
                None => old(self).new_speaker(muted) is None,
            }),
            final(self).muted == Some(muted),
            final(self).paused == old(self).paused,
    {
        if self.muted == Some(muted) {
            return None;
        }
        self.muted = Some(muted);
        if muted {
            Some("speaker.slash.fill")
        } else {
            Some("speaker.wave.2.fill")
        }
    }
}

/// How long the controls stay after the last sign of life, in milliseconds.
pub const CONTROLS_LINGER_MS: u64 = 2500;

pub open spec fn shown_until(until: u64, now: u64, moved: bool, acted: bool) -> u64 {
    if moved || acted {
        (now + CONTROLS_LINGER_MS) as u64
    } else {
        until
    }
}

pub open spec fn controls_show(paused: bool, now: u64, until: u64) -> bool {
    paused || now < until
}

/// Until when the controls stay visible: any pointer movement or control key
/// reveals them for a while.
pub fn controls_until(until: u64, now: u64, moved: bool, acted: bool) -> (r: u64)
    requires
        now + CONTROLS_LINGER_MS <= u64::MAX,
    ensures
        r == shown_until(until, now, moved, acted),
{
    if moved || acted {
        now + CONTROLS_LINGER_MS
    } else {
        until
    }
}

/// Whether the controls show: while paused, and for a while after the last sign
/// of life.
pub fn controls_visible(paused: bool, now: u64, until: u64) -> (r: bool)
    ensures
        r == controls_show(paused, now, until),
{
    paused || now < until
}

/// Minimum gap between two seeks while the seek bar is dragged, in milliseconds.
pub const SCRUB_GAP_MS: u64 = 30;

/// What the pointer does on the video. `target` is the time that its place on
/// the seek bar stands for, where there is a pointer and the video has a length,
/// and `on_bar` whether it is near the bar.
#[derive(Clone, Copy)]
pub struct Pointing {
    pub target: Option<u64>,
    pub on_bar: bool,
    pub drag_started: bool,
    pub dragged: bool,
    pub drag_stopped: bool,
    pub clicked: bool,
}

/// What the player is asked to do.
#[derive(Clone, Copy, PartialEq, Eq, Structural, Debug)]
pub enum SeekAction {
    ScrubTo(u64),
    SeekTo(u64),
    EndScrub,
}

/// A drag of the seek bar: the time last dragged to, which is applied as one
/// precise seek when the drag ends, and when a seek was last sent on the way.
#[derive(Clone, Copy)]
pub struct Scrub {
    pub target: Option<u64>,
    pub last_sent: u64,
}

impl Scrub {
    /// Whether the pointer drags the seek bar.
    pub open spec fn drags(self, p: Pointing) -> bool {
        p.target is Some && ((p.drag_started && p.on_bar) || (p.dragged && self.target is Some))
    }

    /// Whether the pointer clicks the seek bar.
    pub open spec fn clicks(self, p: Pointing) -> bool {
        p.target is Some && !self.drags(p) && p.clicked && p.on_bar
    }

    /// Whether a seek is sent on the way.
    pub open spec fn sends(self, p: Pointing, now: u64) -> bool {
        self.drags(p) && self.last_sent + SCRUB_GAP_MS <= now
    }

    /// The drag after the pointer moved, before it may end.
    pub open spec fn dragged(self, p: Pointing, now: u64) -> Scrub {
        Scrub {
            target: if self.drags(p) {
                p.target
            } else {
                self.target
            },
            last_sent: if self.sends(p, now) {
                now
            } else {
                self.last_sent
            },
        }
    }

    /// The drag afterwards, whether the pointer was on the bar, and what the player is asked
    /// to do, in order.
    pub open spec fn routed(self, p: Pointing, now: u64) -> (Scrub, bool, Seq<SeekAction>) {
        let mid = self.dragged(p, now);
        let moving: Seq<SeekAction> = if self.sends(p, now) {
            seq![SeekAction::ScrubTo(p.target.unwrap())]
        } else if self.clicks(p) {
            seq![SeekAction::SeekTo(p.target.unwrap())]
        } else {
            Seq::empty()
        };
        let on_bar = self.drags(p) || self.clicks(p);
        match mid.target {
            Some(t) => if p.drag_stopped {
                (
                    Scrub { target: None, ..mid },
                    on_bar,
                    moving + seq![SeekAction::SeekTo(t), SeekAction::EndScrub],
                )
            } else {
                (mid, on_bar, moving)
            },
            None => (mid, on_bar, moving),
        }
    }

    /// Route what the pointer does to the seek bar. Seeks on the way are
    /// rate-limited, so that they track decode speed instead of queuing up behind
    /// the cursor. Returns whether the pointer was on the bar, and what the
    /// player is asked to do, in order.
    pub fn route(&mut self, p: Pointing, now: u64) -> (r: (bool, Vec<SeekAction>))
        requires
            old(self).last_sent + SCRUB_GAP_MS <= u64::MAX,
        ensures
            (*final(self), r.0, r.1@) == old(self).routed(p, now),
    {
        let mut actions: Vec<SeekAction> = Vec::new();
        let mut on_bar: bool = false;
        if let Some(t) = p.target {
            if (p.drag_started && p.on_bar) || (p.dragged && self.target.is_some()) {
                self.target = Some(t);
                if self.last_sent + SCRUB_GAP_MS <= now {
                    actions.push(SeekAction::ScrubTo(t));
                    self.last_sent = now;
                }
                on_bar = true;
            } else if p.clicked && p.on_bar {
                actions.push(SeekAction::SeekTo(t));
                on_bar = true;
            }
        }
        let ghost moving = actions@;
        assert(old(self).sends(p, now) ==> moving =~= seq![
            SeekAction::ScrubTo(p.target.unwrap()),
        ]);
        assert(old(self).clicks(p) ==> moving =~= seq![SeekAction::SeekTo(p.target.unwrap())]);
        if p.drag_stopped {
            if let Some(t) = self.target {
                self.target = None;
                actions.push(SeekAction::SeekTo(t));
                actions.push(SeekAction::EndScrub);
                assert(actions@ =~= moving + seq![SeekAction::SeekTo(t), SeekAction::EndScrub]);
            }
        }
        (on_bar, actions)
    }
}

pub open spec fn volume_is_set(clicked: bool, dragged: bool, on_bar: bool) -> bool {
    (clicked || dragged) && on_bar
}

pub open spec fn play_is_toggled(
    space: bool,
    changed: bool,
    clicked: bool,
    double_clicked: bool,
    on_bar: bool,
) -> bool {
    (space && !changed) || (clicked && !on_bar && !double_clicked)
}

/// Whether the pointer sets the volume: a click or drag near the volume bar.
pub fn sets_volume(clicked: bool, dragged: bool, on_bar: bool) -> (r: bool)
    ensures
        r == volume_is_set(clicked, dragged, on_bar),
{
    (clicked || dragged) && on_bar
}

/// Whether play is toggled: by a single click off the bars, or by the space key
/// unless it has just moved to another item. A double click toggles fullscreen
/// instead.
pub fn toggles_play(
    space: bool,
    changed: bool,
    clicked: bool,
    double_clicked: bool,
    on_bar: bool,
) -> (r: bool)
    ensures
        r == play_is_toggled(space, changed, clicked, double_clicked, on_bar),
{
    (space && !changed) || (clicked && !on_bar && !double_clicked)
}

/// A time below an hour reads as minutes and seconds, and one from an hour on as hours,
/// minutes and seconds: numerals with colons between them that add up to the time, seconds
/// and the minutes of an hour in two digits and below 60. What is no time reads as zero.
pub proof fn time_reads_back(t: u64)
    ensures
        t < 3600 ==> exists|m: Seq<char>, s: Seq<char>| #[trigger]
            reads_as_minutes(time_text(Some(t)), m, s) && number(m) * 60 + number(s) == t,
        t >= 3600 ==> exists|h: Seq<char>, m: Seq<char>, s: Seq<char>| #[trigger]
            reads_as_hours(time_text(Some(t)), h, m, s) && number(h) * 3600 + number(m) * 60
                + number(s) == t,
        time_text(None) == time_text(Some(0)),
{
    let total = t as nat;
    let h = total / 3600;
    let m = (total % 3600) / 60;
    let s = total % 60;
    decimal_reads_back(h);
    decimal_reads_back(m);
    padded_reads_back(m, 2);
    padded_reads_back(s, 2);
    two_digits(m);
    two_digits(s);
    plain_numeral(h);
    plain_numeral(m);
    if h > 0 {
        assert(reads_as_hours(time_text(Some(t)), decimal(h), padded(m, 2), padded(s, 2)));
    } else {
        assert(reads_as_minutes(time_text(Some(t)), decimal(m), padded(s, 2)));
    }
}

/// Whether a text is a numeral without leading zeros.
pub open spec fn is_plain_numeral(s: Seq<char>) -> bool {
    &&& s.len() > 0
    &&& forall|i: int| 0 <= i < s.len() ==> '0' <= #[trigger] s[i] <= '9'
    &&& s.len() > 1 ==> s[0] != '0'
}

/// Whether a text is a numeral of two digits below 60.
pub open spec fn is_sixtieth(s: Seq<char>) -> bool {
    s.len() == 2 && '0' <= s[0] <= '5' && '0' <= s[1] <= '9'
}

pub open spec fn reads_as_minutes(text: Seq<char>, m: Seq<char>, s: Seq<char>) -> bool {
    text == m + ":"@ + s && is_plain_numeral(m) && is_sixtieth(s)
}

pub open spec fn reads_as_hours(text: Seq<char>, h: Seq<char>, m: Seq<char>, s: Seq<char>) -> bool {
    text == h + ":"@ + m + ":"@ + s && is_plain_numeral(h) && is_sixtieth(m) && is_sixtieth(s)
}

proof fn two_digits(n: nat)
    requires
        n < 60,
    ensures
        is_sixtieth(padded(n, 2)),
{
    reveal_with_fuel(decimal, 3);
    padded_reads_back(n, 2);
    if n < 10 {
        assert(padded(n, 2) =~= seq!['0', digit(n)]);
    } else {
        assert(decimal(n) =~= seq![digit(n / 10), digit(n % 10)]);
    }
}

proof fn plain_numeral(n: nat)
    ensures
        is_plain_numeral(decimal(n)),
    decreases n,
{
    decimal_reads_back(n);
    numeral_has_no_leading_zero(n);
    assert forall|i: int| 0 <= i < decimal(n).len() implies '0' <= #[trigger] decimal(n)[i]
        <= '9' by {
        assert(is_digit(decimal(n)[i]));
    }
}

/// The status line says whether the video is paused, where it is, how long it is, and how
/// loud: as the player has them, each in its place.
pub proof fn status_line_says_everything(
    paused: bool,
    position: Option<u64>,
    duration: Option<u64>,
    volume: Option<u32>,
)
    ensures
        ({
            let state = if paused {
                "II"@
            } else {
                ">"@
            };
            let heard = match volume {
                Some(v) => "vol "@ + decimal(v as nat) + "%"@,
                None => "muted"@,
            };
            status_text(paused, position, duration, volume) == state + ("  "@ + time_text(position)
                + (" / "@ + time_text(duration) + ("      "@ + heard)))
        }),
{
    let state = if paused {
        "II"@
    } else {
        ">"@
    };
    let heard = match volume {
        Some(v) => "vol "@ + decimal(v as nat) + "%"@,
        None => "muted"@,
    };
    assert(status_text(paused, position, duration, volume) =~= state + ("  "@ + time_text(position)
        + (" / "@ + time_text(duration) + ("      "@ + heard))));
}

/// The buttons show what a press would do, or what is: a paused video can be played, a
/// playing one paused; a muted speaker is crossed out.
pub proof fn symbols_show_the_state()
    ensures
        play_symbol(true) == "play.fill"@,
        play_symbol(false) == "pause.fill"@,
        speaker_symbol(true) == "speaker.slash.fill"@,
        speaker_symbol(false) == "speaker.wave.2.fill"@,
{
}

/// The controls stay for two and a half seconds after a movement or a key, however long they
/// would have stayed before, and always while paused; without a sign of life they go when
/// their time is over.
pub proof fn controls_linger(until: u64, now: u64, later: u64, moved: bool, acted: bool)
    requires
        now + 2500 <= u64::MAX,
        now <= later,
    ensures
        moved || acted ==> (controls_show(false, later, shown_until(until, now, moved, acted))
            <==> later < now + 2500),
        !moved && !acted ==> (controls_show(false, later, shown_until(until, now, moved, acted))
            <==> later < until),
        controls_show(true, later, until),
{
}

/// A drag of the seek bar begins on the bar and goes on wherever the pointer is, until it
/// is let go; it always holds the time that the pointer stands for.
pub proof fn drag_follows_the_pointer(s: Scrub, p: Pointing, now: u64, t: u64)
    requires
        s.last_sent + 30 <= u64::MAX,
        p.target == Some(t),
        (p.drag_started && p.on_bar) || (p.dragged && s.target is Some),
        !p.drag_stopped,
    ensures
        s.routed(p, now).0.target == Some(t),
        s.routed(p, now).1,
        s.last_sent + 30 <= now ==> s.routed(p, now).2 == seq![SeekAction::ScrubTo(t)] && s.routed(
            p,
            now,
        ).0.last_sent == now,
        now < s.last_sent + 30 ==> s.routed(p, now).2.len() == 0 && s.routed(p, now).0.last_sent
            == s.last_sent,
{
}

/// Letting go of a drag seeks to the time it holds, exactly, and ends it, however recently a
/// seek was sent on the way.
pub proof fn drag_ends_with_a_seek(s: Scrub, p: Pointing, now: u64)
    requires
        p.drag_stopped,
    ensures
        ({
            let begun = p.target is Some && ((p.drag_started && p.on_bar) || (p.dragged
                && s.target is Some));
            let held = if begun {
                p.target
            } else {
                s.target
            };
            let actions = s.routed(p, now).2;
            held matches Some(t) ==> {
                &&& s.routed(p, now).0.target is None
                &&& actions.len() >= 2
                &&& actions[actions.len() - 2] == SeekAction::SeekTo(t)
                &&& actions.last() == SeekAction::EndScrub
            }
        }),
{
}

/// A click on the bar seeks to where it points; a pointer that neither drags nor clicks the
/// bar does nothing and leaves a drag as it is.
pub proof fn click_seeks_where_it_points(s: Scrub, p: Pointing, now: u64)
    requires
        !p.drag_stopped,
        !(p.drag_started && p.on_bar),
        !(p.dragged && s.target is Some),
    ensures
        p.target matches Some(t) ==> (p.clicked && p.on_bar ==> s.routed(p, now) == (
            s,
            true,
            seq![SeekAction::SeekTo(t)],
        )),
        p.target is None || !p.clicked || !p.on_bar ==> s.routed(p, now) == (
            s,
            false,
            Seq::<SeekAction>::empty(),
        ),
{
}

/// Play is toggled by a click off the bars, or by space on a video that was already there; a
/// double click, a click on a bar, or space that has just moved the view do not. The volume
/// is set by a click or a drag near its bar, and never elsewhere.
pub proof fn clicks_off_the_bars_toggle_play(
    space: bool,
    changed: bool,
    clicked: bool,
    double_clicked: bool,
    on_bar: bool,
    dragged: bool,
)
    ensures
        play_is_toggled(true, false, clicked, double_clicked, on_bar),
        play_is_toggled(space, changed, true, false, false),
        !play_is_toggled(true, true, false, double_clicked, on_bar),
        !play_is_toggled(false, changed, clicked, true, on_bar),
        !play_is_toggled(false, changed, clicked, double_clicked, true),
        !play_is_toggled(false, changed, false, double_clicked, on_bar),
        volume_is_set(true, dragged, true),
        volume_is_set(clicked, true, true),
        !volume_is_set(clicked, dragged, false),
        !volume_is_set(false, false, on_bar),
{
}

/// A symbol is put up when the state that it shows changes, or has not been shown yet, and
/// only then.
pub proof fn symbols_change_with_the_state(icons: Icons, paused: bool, muted: bool)
    ensures
        icons.paused is None ==> icons.new_play(paused) is Some,
        icons.paused == Some(!paused) ==> icons.new_play(paused) is Some,
        icons.paused == Some(paused) ==> icons.new_play(paused) is None,
        icons.new_play(true) matches Some(name) ==> name == "play.fill"@,
        icons.new_play(false) matches Some(name) ==> name == "pause.fill"@,
        icons.muted is None ==> icons.new_speaker(muted) is Some,
        icons.muted == Some(!muted) ==> icons.new_speaker(muted) is Some,
        icons.muted == Some(muted) ==> icons.new_speaker(muted) is None,
        icons.new_speaker(true) matches Some(name) ==> name == "speaker.slash.fill"@,
        icons.new_speaker(false) matches Some(name) ==> name == "speaker.wave.2.fill"@,
{
}

} // verus!
