//! What is playing, read from the properties an MPRIS player publishes.

use vstd::prelude::*;

use std::time::Duration;

use crate::text::{chars_of, join, joined, same_text, starts_with, views};

verus! {

/// The well-known bus names of MPRIS players start with this.
pub const MPRIS_PREFIX: &'static str = "org.mpris.MediaPlayer2.";

/// One track, as the player describes it.
#[derive(Debug, Clone, PartialEq, Eq)]
pub struct Track {
    pub title: String,
    /// Artists joined by commas, empty when the player names none.
    pub artist: String,
    pub album: String,
    pub art_url: Option<String>,
}

/// A track and how far into it the player is.
#[derive(Debug, Clone)]
pub struct NowPlaying {
    pub track: Track,
    pub position: Duration,
    pub length: Option<Duration>,
}

/// A D-Bus value of a player's properties, as far as the dashboard reads it.
pub enum MetaValue {
    /// A string.
    Text(String),
    /// An array; the string items as they are, nothing for the others.
    Array(Vec<Option<String>>),
    /// A signed 64-bit integer.
    Signed(i64),
    /// An unsigned 64-bit integer.
    Unsigned(u64),
    /// Anything else.
    Other,
}

/// `Duration::clone`: `Duration` is `Copy`, its clone is the same duration.
pub assume_specification[ <std::time::Duration as Clone>::clone ](duration: &Duration) -> (copy:
    Duration)
    ensures
        copy == *duration,
;

/// The `Duration` of `micros` microseconds.
pub uninterp spec fn duration_of_micros(micros: u64) -> Duration;

/// `Duration::from_micros`: the duration of `micros` microseconds.
#[verifier::external_body]
fn from_micros(micros: u64) -> (duration: Duration)
    ensures
        duration == duration_of_micros(micros),
{
    Duration::from_micros(micros)
}

/// A player's bus name, among all the names on the session bus.
pub fn is_mpris_player(name: &str) -> (player: bool)
    ensures
        player == MPRIS_PREFIX@.is_prefix_of(name@),
{
    let chars = chars_of(name);
    starts_with(chars.as_slice(), MPRIS_PREFIX)
}

/// The string items of an array, in order.
pub open spec fn strings_in(items: Seq<Option<String>>) -> Seq<Seq<char>>
    decreases items.len(),
{
    if items.len() == 0 {
        Seq::empty()
    } else {
        strings_in(items.drop_last()) + match items.last() {
            Some(s) => seq![s@],
            None => Seq::empty(),
        }
    }
}

/// The text a value holds: a string as it is; the strings of an array joined
/// by commas, when there is at least one.
pub open spec fn value_text(value: MetaValue) -> Option<Seq<char>> {
    match value {
        MetaValue::Text(s) => Some(s@),
        MetaValue::Array(items) => if strings_in(items@).len() > 0 {
            Some(join(strings_in(items@), ", "@))
        } else {
            None
        },
        _ => None,
    }
}

/// The value under `key` in the metadata, from entry `from` on.
pub open spec fn entry_at(metadata: Seq<(String, MetaValue)>, key: Seq<char>, from: int) -> Option<int>
    decreases metadata.len() - from,
{
    if from < 0 || from >= metadata.len() {
        None
    } else if metadata[from].0@ == key {
        Some(from)
    } else {
        entry_at(metadata, key, from + 1)
    }
}

/// The text of the metadata entry `key`.
pub open spec fn metadata_text(metadata: Seq<(String, MetaValue)>, key: Seq<char>) -> Option<
    Seq<char>,
> {
    match entry_at(metadata, key, 0) {
        Some(i) => value_text(metadata[i].1),
        None => None,
    }
}

/// The duration a value holds, in microseconds: MPRIS asks for signed ones,
/// but some players send unsigned ones. A negative one is none.
pub open spec fn value_micros(value: MetaValue) -> Option<u64> {
    match value {
        MetaValue::Signed(m) => if m >= 0 {
            Some(m as u64)
        } else {
            None
        },
        MetaValue::Unsigned(m) => Some(m),
        _ => None,
    }
}

fn entry(metadata: &[(String, MetaValue)], key: &str) -> (found: Option<usize>)
    ensures
        found matches Some(i) ==> i < metadata@.len() && entry_at(metadata@, key@, 0) == Some(
            i as int,
        ),
        found is None ==> entry_at(metadata@, key@, 0) is None,
{
    let mut i: usize = 0;
    while i < metadata.len()
        invariant
            i <= metadata@.len(),
            entry_at(metadata@, key@, i as int) == entry_at(metadata@, key@, 0),
        decreases metadata@.len() - i,
    {
        if same_text(metadata[i].0.as_str(), key) {
            return Some(i);
        }
        i = i + 1;
    }
    None
}

/// The text a value holds.
pub fn text_of(value: &MetaValue) -> (text: Option<String>)
    ensures
        match text {
            Some(t) => value_text(*value) == Some(t@),
            None => value_text(*value) is None,
        },
{
    match value {
        MetaValue::Text(s) => Some(s.clone()),
        MetaValue::Array(items) => {
            let mut strings: Vec<String> = Vec::new();
            let mut i: usize = 0;
            while i < items.len()
                invariant
                    i <= items@.len(),
                    views(strings@) == strings_in(items@.take(i as int)),
                decreases items@.len() - i,
            {
                assert(items@.take(i + 1).drop_last() =~= items@.take(i as int));
                let ghost before = views(strings@);
                match &items[i] {
                    Some(s) => {
                        strings.push(s.clone());
                    },
                    None => {},
                }
                assert(views(strings@) =~= strings_in(items@.take(i + 1)));
                i = i + 1;
            }
            assert(items@.take(items@.len() as int) =~= items@);
            if strings.len() > 0 {
                Some(joined(&strings, ", "))
            } else {
                None
            }
        },
        _ => None,
    }
}

/// The text of the metadata entry `key`.
pub fn metadata_text_of(metadata: &[(String, MetaValue)], key: &str) -> (text: Option<String>)
    ensures
        match text {
            Some(t) => metadata_text(metadata@, key@) == Some(t@),
            None => metadata_text(metadata@, key@) is None,
        },
{
    let i = entry(metadata, key)?;
    text_of(&metadata[i].1)
}

/// The duration a value holds.
pub fn duration_of(value: &MetaValue) -> (duration: Option<Duration>)
    ensures
        duration == match value_micros(*value) {
            Some(m) => Some(duration_of_micros(m)),
            None => None,
        },
{
    match value {
        MetaValue::Signed(m) => if *m >= 0 {
            Some(from_micros(*m as u64))
        } else {
            None
        },
        MetaValue::Unsigned(m) => Some(from_micros(*m)),
        _ => None,
    }
}

/// The duration of the metadata entry `key`.
pub open spec fn metadata_duration(metadata: Seq<(String, MetaValue)>, key: Seq<char>) -> Option<
    Duration,
> {
    match entry_at(metadata, key, 0) {
        Some(i) => match value_micros(metadata[i].1) {
            Some(m) => Some(duration_of_micros(m)),
            None => None,
        },
        None => None,
    }
}

/// The duration of the metadata entry `key`.
pub fn metadata_duration_of(metadata: &[(String, MetaValue)], key: &str) -> (duration: Option<
    Duration,
>)
    ensures
        duration == metadata_duration(metadata@, key@),
{
    let i = entry(metadata, key)?;
    duration_of(&metadata[i].1)
}

/// A `Track` as contracts speak of it.
pub open spec fn track_view(track: Track) -> (Seq<char>, Seq<char>, Seq<char>, Option<Seq<char>>) {
    (
        track.title@,
        track.artist@,
        track.album@,
        match track.art_url {
            Some(u) => Some(u@),
            None => None,
        },
    )
}

/// What a player playing something worth showing is playing: its status
/// is the string `Playing` and its metadata gives a title that is not empty (some
/// browser tabs play without saying what). Artist and album are empty when
/// missing; the position is zero when missing.
pub open spec fn playing_from(
    status: Option<MetaValue>,
    metadata: Seq<(String, MetaValue)>,
    position: Option<MetaValue>,
) -> Option<((Seq<char>, Seq<char>, Seq<char>, Option<Seq<char>>), Duration, Option<Duration>)> {
    let playing = match status {
        Some(MetaValue::Text(s)) => s@ == "Playing"@,
        _ => false,
    };
    let title = metadata_text(metadata, "xesam:title"@);
    if !playing || title is None || title.unwrap().len() == 0 {
        None
    } else {
        let text_or_empty = |key: Seq<char>|
            match metadata_text(metadata, key) {
                Some(t) => t,
                None => Seq::empty(),
            };
        Some(
            (
                (
                    title.unwrap(),
                    text_or_empty("xesam:artist"@),
                    text_or_empty("xesam:album"@),
                    metadata_text(metadata, "mpris:artUrl"@),
                ),
                match position {
                    Some(v) => match value_micros(v) {
                        Some(m) => duration_of_micros(m),
                        None => duration_of_micros(0),
                    },
                    None => duration_of_micros(0),
                },
                metadata_duration(metadata, "mpris:length"@),
            ),
        )
    }
}

/// `i` is the first metadata entry keyed `key`.
pub open spec fn first_entry(metadata: Seq<(String, MetaValue)>, key: Seq<char>, i: int) -> bool {
    &&& 0 <= i < metadata.len()
    &&& metadata[i].0@ == key
    &&& forall|j: int| 0 <= j < i ==> (#[trigger] metadata[j]).0@ != key
}

proof fn lemma_entry_found(metadata: Seq<(String, MetaValue)>, key: Seq<char>, i: int, from: int)
    requires
        first_entry(metadata, key, i),
        0 <= from <= i,
    ensures
        entry_at(metadata, key, from) == Some(i),
    decreases i - from,
{
    if from < i {
        assert(metadata[from].0@ != key);
        lemma_entry_found(metadata, key, i, from + 1);
    }
}

proof fn lemma_entry_absent(metadata: Seq<(String, MetaValue)>, key: Seq<char>, from: int)
    requires
        forall|j: int| 0 <= j < metadata.len() ==> (#[trigger] metadata[j]).0@ != key,
        0 <= from,
    ensures
        entry_at(metadata, key, from) is None,
    decreases metadata.len() - from,
{
    if from < metadata.len() {
        assert(metadata[from].0@ != key);
        lemma_entry_absent(metadata, key, from + 1);
    }
}

/// A player is read as playing exactly when its status is the text
/// `Playing` and the first `xesam:title` entry is a text that is not empty;
/// that text is the title.
pub proof fn lemma_playing_needs_status_and_title(
    status: Option<MetaValue>,
    metadata: Seq<(String, MetaValue)>,
    position: Option<MetaValue>,
    i: int,
    title: String,
)
    requires
        first_entry(metadata, "xesam:title"@, i),
        metadata[i].1 == MetaValue::Text(title),
    ensures
        playing_from(status, metadata, position) is Some <==> (status matches Some(
            MetaValue::Text(s),
        ) && s@ == "Playing"@ && title@.len() > 0),
        playing_from(status, metadata, position) matches Some(p) ==> p.0.0 == title@,
{
    lemma_entry_found(metadata, "xesam:title"@, i, 0);
}

/// Without a `xesam:title` entry nothing is read as playing.
pub proof fn lemma_untitled_is_not_playing(
    status: Option<MetaValue>,
    metadata: Seq<(String, MetaValue)>,
    position: Option<MetaValue>,
)
    requires
        forall|j: int| 0 <= j < metadata.len() ==> (#[trigger] metadata[j]).0@ != "xesam:title"@,
    ensures
        playing_from(status, metadata, position) is None,
{
    lemma_entry_absent(metadata, "xesam:title"@, 0);
}

/// Each field of the track is read from its own key, whatever the other
/// entries say: the artist from the first `xesam:artist` entry, the album
/// from the first `xesam:album` entry, the cover from the first
/// `mpris:artUrl` entry. A text entry gives its text.
pub proof fn lemma_track_fields_come_from_their_keys(
    status: Option<MetaValue>,
    metadata: Seq<(String, MetaValue)>,
    position: Option<MetaValue>,
    i: int,
    text: String,
)
    requires
        0 <= i < metadata.len(),
        metadata[i].1 == MetaValue::Text(text),
        forall|j: int| 0 <= j < i ==> (#[trigger] metadata[j]).0@ != metadata[i].0@,
    ensures
        playing_from(status, metadata, position) matches Some(p) ==> {
            &&& metadata[i].0@ == "xesam:artist"@ ==> p.0.1 == text@
            &&& metadata[i].0@ == "xesam:album"@ ==> p.0.2 == text@
            &&& metadata[i].0@ == "mpris:artUrl"@ ==> p.0.3 == Some(text@)
        },
{
    lemma_entry_found(metadata, metadata[i].0@, i, 0);
}

/// A track without an artist or album entry has an empty artist or album,
/// and one without an `mpris:artUrl` entry has no cover.
pub proof fn lemma_missing_fields_are_empty(
    status: Option<MetaValue>,
    metadata: Seq<(String, MetaValue)>,
    position: Option<MetaValue>,
    key: Seq<char>,
)
    requires
        forall|j: int| 0 <= j < metadata.len() ==> (#[trigger] metadata[j]).0@ != key,
    ensures
        playing_from(status, metadata, position) matches Some(p) ==> {
            &&& key == "xesam:artist"@ ==> p.0.1.len() == 0
            &&& key == "xesam:album"@ ==> p.0.2.len() == 0
            &&& key == "mpris:artUrl"@ ==> p.0.3 is None
        },
{
    lemma_entry_absent(metadata, key, 0);
}

/// What a player is playing, from its `PlaybackStatus`, `Metadata` and
/// `Position` properties.
pub fn now_playing(
    status: Option<&MetaValue>,
    metadata: &[(String, MetaValue)],
    position: Option<&MetaValue>,
) -> (playing: Option<NowPlaying>)
    ensures
        match playing {
            Some(p) => playing_from(
                match status {
                    Some(v) => Some(*v),
                    None => None,
                },
                metadata@,
                match position {
                    Some(v) => Some(*v),
                    None => None,
                },
            ) == Some((track_view(p.track), p.position, p.length)),
            None => playing_from(
                match status {
                    Some(v) => Some(*v),
                    None => None,
                },
                metadata@,
                match position {
                    Some(v) => Some(*v),
                    None => None,
                },
            ) is None,
        },
{
    let playing = match status {
        Some(MetaValue::Text(s)) => same_text(s.as_str(), "Playing"),
        _ => false,
    };
    if !playing {
        return None;
    }
    let title = metadata_text_of(metadata, "xesam:title")?;
    if title.as_str().is_empty() {
        return None;
    }
    let artist = match metadata_text_of(metadata, "xesam:artist") {
        Some(t) => t,
        None => String::new(),
    };
    let album = match metadata_text_of(metadata, "xesam:album") {
        Some(t) => t,
        None => String::new(),
    };
    let art_url = metadata_text_of(metadata, "mpris:artUrl");
    let position = match position {
        Some(v) => match duration_of(v) {
            Some(d) => d,
            None => from_micros(0),
        },
        None => from_micros(0),
    };
    let length = metadata_duration_of(metadata, "mpris:length");
    let track = Track { title, artist, album, art_url };
    Some(NowPlaying { track, position, length })
}

/// Seconds between two tries to reach the session bus: it is not always
/// there, and players come and go.
pub const RETRY_SECONDS: u64 = 30;

/// Whether to try the session bus again: there is no connection, and the
/// last try is `elapsed_seconds` whole seconds old.
pub fn retry_due(connected: bool, elapsed_seconds: u64) -> (due: bool)
    ensures
        due == (!connected && elapsed_seconds >= RETRY_SECONDS),
{
    !connected && elapsed_seconds >= RETRY_SECONDS
}

} // verus!
