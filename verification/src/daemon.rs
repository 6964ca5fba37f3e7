//! The dashboard loop's decisions: what to draw, what to log, and when.

use vstd::prelude::*;

use crate::player::Track;
use crate::protocol::WIDTH;
use crate::session::{state_label, state_of, ScreenState};
use crate::text::same_text;

verus! {

/// Seconds between two lookups of the weather when its refresh is set in
/// `minutes`: at least one minute.
pub open spec fn weather_refresh(minutes: u64) -> int {
    if minutes >= 1 {
        minutes * 60
    } else {
        60
    }
}

/// Seconds between two lookups of the weather.
pub fn weather_refresh_seconds(minutes: u64) -> (seconds: u64)
    requires
        weather_refresh(minutes) <= u64::MAX,
    ensures
        seconds == weather_refresh(minutes),
{
    let minutes = if minutes >= 1 {
        minutes
    } else {
        1
    };
    minutes * 60
}

/// The color bars of `thermaltaked test`, left to right.
pub open spec fn bar_colors() -> Seq<[u8; 3]> {
    seq![
        [255u8, 255u8, 255u8],
        [255u8, 255u8, 0u8],
        [0u8, 255u8, 255u8],
        [0u8, 255u8, 0u8],
        [255u8, 0u8, 255u8],
        [255u8, 0u8, 0u8],
        [0u8, 0u8, 255u8],
        [0u8, 0u8, 0u8],
    ]
}

/// The color of column `x` of the test pattern: eight bars of equal width.
pub fn color_bar(x: u32) -> (color: [u8; 3])
    requires
        x < WIDTH,
    ensures
        color == bar_colors()[x * 8 / (WIDTH as int)],
{
    let bars: [[u8; 3]; 8] = [
        [255, 255, 255],
        [255, 255, 0],
        [0, 255, 255],
        [0, 255, 0],
        [255, 0, 255],
        [255, 0, 0],
        [0, 0, 255],
        [0, 0, 0],
    ];
    assert(bars@ =~= bar_colors());
    bars[(x * 8 / WIDTH) as usize]
}

/// What the panel shows.
#[derive(Debug, Clone, Copy, PartialEq, Eq, Structural)]
pub enum Frame {
    /// What is playing, with its cover.
    Player,
    /// The dashboard.
    Dashboard,
    /// The date and the time alone.
    Clock,
}

/// Whatever plays takes the panel; otherwise the dashboard while someone
/// looks, the clock while nobody does.
pub open spec fn frame_of(playing: bool, state: ScreenState) -> Frame {
    if playing {
        Frame::Player
    } else if state == ScreenState::Awake {
        Frame::Dashboard
    } else {
        Frame::Clock
    }
}

/// Whenever something plays, the panel shows it, whatever the screen state;
/// the state only chooses between the dashboard and the clock when nothing
/// plays: the dashboard exactly when the session is unlocked and a monitor
/// is on.
pub proof fn lemma_playing_takes_the_panel(playing: bool, locked: bool, asleep: bool)
    ensures
        playing ==> frame_of(playing, state_of(locked, asleep)) == Frame::Player,
        !playing ==> frame_of(playing, state_of(locked, asleep)) != Frame::Player,
        !playing ==> (frame_of(playing, state_of(locked, asleep)) == Frame::Dashboard <==> !locked
            && !asleep),
        !playing ==> (frame_of(playing, state_of(locked, asleep)) == Frame::Clock <==> locked
            || asleep),
{
}

/// What the panel shows next.
pub fn frame_for(playing: bool, state: ScreenState) -> (frame: Frame)
    ensures
        frame == frame_of(playing, state),
{
    if playing {
        Frame::Player
    } else if state == ScreenState::Awake {
        Frame::Dashboard
    } else {
        Frame::Clock
    }
}

/// The log line for what is drawn in `state`.
pub open spec fn description(state: ScreenState) -> Seq<char> {
    state_label(state) + ": drawing "@ + if state == ScreenState::Awake {
        "the dashboard"@
    } else {
        "the clock"@
    }
}

/// The log line for what is drawn in `state`.
pub fn describe(state: ScreenState) -> (line: String)
    ensures
        line@ == description(state),
{
    let drawing = if state == ScreenState::Awake {
        "the dashboard"
    } else {
        "the clock"
    };
    let mut line = state.label().to_owned();
    line.append(": drawing ");
    line.append(drawing);
    line
}

/// The log line for what the panel shows: the track when one plays.
pub open spec fn showing(playing: Option<(Seq<char>, Seq<char>)>, state: ScreenState) -> Seq<char> {
    match playing {
        Some((artist, title)) => "playing: "@ + artist + " \u{2014} "@ + title,
        None => description(state),
    }
}

/// The log line for what the panel shows.
pub fn showing_line(playing: Option<&Track>, state: ScreenState) -> (line: String)
    ensures
        line@ == showing(
            match playing {
                Some(t) => Some((t.artist@, t.title@)),
                None => None,
            },
            state,
        ),
{
    match playing {
        Some(track) => {
            let mut line = "playing: ".to_owned();
            line.append(track.artist.as_str());
            line.append(" \u{2014} ");
            line.append(track.title.as_str());
            line
        },
        None => describe(state),
    }
}

/// The last line logged of a kind, so that a line repeated frame after
/// frame is logged once.
pub struct LogOnce {
    pub last: Option<String>,
}

impl LogOnce {
    /// Nothing logged yet.
    pub fn new() -> (log: Self)
        ensures
            log.last is None,
    {
        LogOnce { last: None }
    }

    /// Whether `line` is worth logging: it differs from the last one. It
    /// becomes the last one either way.
    pub fn note(&mut self, line: String) -> (fresh: bool)
        ensures
            fresh == !(old(self).last matches Some(last) && last@ == line@),
            final(self).last matches Some(last) && last@ == line@,
    {
        let fresh = match &self.last {
            Some(last) => !same_text(last.as_str(), line.as_str()),
            None => true,
        };
        self.last = Some(line);
        fresh
    }

    /// Forgets the last line, so the next one is logged whatever it says.
    pub fn clear(&mut self)
        ensures
            final(self).last is None,
    {
        self.last = None;
    }
}

/// Whether the cover of `url` must be asked for: the one drawn last is of
/// another track, or there is none.
pub fn needs_cover(drawn: Option<&String>, url: &String) -> (needed: bool)
    ensures
        needed == !(drawn matches Some(d) && d@ == url@),
{
    match drawn {
        Some(d) => !same_text(d.as_str(), url.as_str()),
        None => true,
    }
}

/// How long a preview waits for the weather, at most, in milliseconds.
pub const WEATHER_WAIT_MS: u64 = 5000;

/// Whether a preview goes on waiting for the weather before it is drawn:
/// while the weather is asked for and has not arrived, for five seconds at
/// most.
pub fn keep_waiting(weather_pending: bool, elapsed_ms: u64) -> (wait: bool)
    ensures
        wait == (weather_pending && elapsed_ms < WEATHER_WAIT_MS),
{
    weather_pending && elapsed_ms < WEATHER_WAIT_MS
}

} // verus!
