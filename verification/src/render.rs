//! What the dashboard writes: shortened texts, clock faces, dates, and where
//! things go on the 480x128 panel.

use vstd::prelude::*;

use crate::protocol::HEIGHT;
use crate::text::{
    answers, chars_of, decimal, decimal_string, find_char, find_char_from, is_ascii_digit,
    prefix_string, probe, string_of, suffix_chars, suffix_string, trim_end, trimmed_end_len,
    two_digit_string, two_digits, decimal_value, lemma_decimal_reads_back, lemma_two_digits_read_back,
};

verus! {

/// Room left around the panel's content.
pub const MARGIN: i32 = 8;
pub const HEADER_HEIGHT: u32 = 22;
pub const VALUE_TOP: i32 = 33;
pub const BAR_TOP: i32 = 68;
pub const BAR_HEIGHT: u32 = 5;
pub const COLUMN_GAP: i32 = 14;
/// Side of the cover art: the panel's full height, flush with its left edge.
pub const ART_SIZE: u32 = HEIGHT;
/// Room between the cover and the text beside it.
pub const ART_GAP: i32 = 16;
pub const FAN_BAND_TOP: i32 = 88;
/// The clock and weather column starts here.
pub const RIGHT_COLUMN_LEFT: i32 = 318;
/// Axis of the date, clock, weather and load average.
pub const RIGHT_COLUMN_CENTER: i32 = 395;
/// Gauges, fans and the kernel version end here, one gutter before the separator.
pub const LEFT_PANEL_RIGHT: i32 = 300;
/// Widest a fan's cell gets.
pub const MAX_FAN_CELL: i32 = 96;

/// The ellipsis that ends a shortened text.
pub const ELLIPSIS: char = '\u{2026}';

/// The first `kept` characters of `text`, the white space ending them cut,
/// then an ellipsis.
pub open spec fn cut(text: Seq<char>, kept: int) -> Seq<char> {
    trim_end(text.take(kept)).push(ELLIPSIS)
}

/// What `shorten` may give back for `text`, given what `fits` answered:
/// the text itself when it fits; nothing when not even a lone ellipsis fits;
/// otherwise a cut that fits while the next longer one does not.
pub open spec fn is_shortening<F: Fn(&str) -> bool>(
    fits: F,
    text: Seq<char>,
    short: Seq<char>,
) -> bool {
    ||| short == text && answers(fits, text, true)
    ||| {
        &&& answers(fits, text, false)
        &&& short.len() == 0
        &&& answers(fits, cut(text, 0), false)
    }
    ||| {
        &&& answers(fits, text, false)
        &&& exists|kept: int|
            #![trigger cut(text, kept)]
            0 <= kept < text.len() && short == cut(text, kept) && answers(fits, cut(text, kept), true)
                && (kept == text.len() - 1 || answers(fits, cut(text, kept + 1), false))
    }
}

fn cut_string(chars: &[char], kept: usize) -> (short: String)
    requires
        kept <= chars@.len(),
    ensures
        short@ == cut(chars@, kept as int),
{
    let end = trimmed_end_len(chars, kept);
    let mut short = prefix_string(chars, end);
    let ellipsis = string_of(&[ELLIPSIS]);
    short.append(ellipsis.as_str());
    assert(short@ =~= cut(chars@, kept as int));
    short
}

/// The longest start of `text` that `fits` once an ellipsis ends it, or the
/// whole of it when it fits as it is. Width grows with every character kept,
/// so a binary search finds the cut in a handful of measurements rather than
/// one per character.
pub fn shorten<F: Fn(&str) -> bool>(text: &str, fits: F) -> (short: String)
    requires
        forall|t: &str| call_requires(fits, (t,)),
        text@.len() == 0 ==> !answers(fits, text@, false),
    ensures
        is_shortening(fits, text@, short@),
        short@.len() == 0 || answers(fits, short@, true),
{
    if probe(&fits, text) {
        return text.to_owned();
    }
    let chars = chars_of(text);
    let first = cut_string(chars.as_slice(), 0);
    if !probe(&fits, first.as_str()) {
        return String::new();
    }
    // The whole text does not fit, so at most all but one character stays.
    let mut low: usize = 0;
    let mut high: usize = chars.len() - 1;
    while low < high
        invariant
            chars@ == text@,
            forall|t: &str| call_requires(fits, (t,)),
            0 <= low <= high < chars@.len(),
            answers(fits, cut(text@, low as int), true),
            high == chars@.len() - 1 || answers(fits, cut(text@, high + 1), false),
        decreases high - low,
    {
        let middle = low + (high - low) / 2 + (high - low) % 2;
        let candidate = cut_string(chars.as_slice(), middle);
        if probe(&fits, candidate.as_str()) {
            low = middle;
        } else {
            high = middle - 1;
        }
    }
    let short = cut_string(chars.as_slice(), low);
    assert(short@ == cut(text@, low as int));
    short
}

/// Minutes and seconds, as a player writes them: `m:ss`.
pub open spec fn clock_face_text(seconds: nat) -> Seq<char> {
    decimal(seconds / 60) + seq![':'] + two_digits(seconds % 60)
}

/// A track clock is whole minutes, a colon, then the seconds left over on
/// two digits: each part reads back as its number, and the minutes carry no
/// leading zero.
pub proof fn lemma_clock_face_reads_back(seconds: nat)
    ensures
        clock_face_text(seconds).len() >= 4,
        clock_face_text(seconds)[clock_face_text(seconds).len() - 3] == ':',
        decimal_value(clock_face_text(seconds).take(clock_face_text(seconds).len() - 3)) == seconds
            / 60,
        decimal_value(clock_face_text(seconds).skip(clock_face_text(seconds).len() - 2)) == seconds
            % 60,
        forall|i: int|
            0 <= i < clock_face_text(seconds).len() && i != clock_face_text(seconds).len() - 3
                ==> is_ascii_digit(#[trigger] clock_face_text(seconds)[i]),
        clock_face_text(seconds).len() > 4 ==> clock_face_text(seconds)[0] != '0',
{
    let m = decimal(seconds / 60);
    let r = two_digits(seconds % 60);
    lemma_decimal_reads_back(seconds / 60);
    lemma_two_digits_read_back(seconds % 60);
    let f = clock_face_text(seconds);
    assert(f.take(f.len() - 3) =~= m);
    assert(f.skip(f.len() - 2) =~= r);
    assert forall|i: int| 0 <= i < f.len() && i != f.len() - 3 implies is_ascii_digit(
        #[trigger] f[i],
    ) by {
        if i < m.len() {
            assert(f[i] == m[i]);
        } else {
            assert(f[i] == r[i - m.len() - 1]);
        }
    }
    if f.len() > 4 {
        assert(seconds / 60 >= 10);
        assert(f[0] == m[0]);
    }
}

/// Minutes and seconds of a duration of `seconds` whole seconds, as a player
/// writes them.
pub fn clock_face(seconds: u64) -> (face: String)
    ensures
        face@ == clock_face_text(seconds as nat),
{
    let mut face = decimal_string(seconds / 60);
    let colon = string_of(&[':']);
    face.append(colon.as_str());
    let rest = two_digit_string(seconds % 60);
    face.append(rest.as_str());
    face
}

/// A moment of local time, as the panel shows it.
pub struct LocalTime {
    pub year: i32,
    pub month: u32,
    pub day: u32,
    /// Days since Monday: 0 for Monday, 6 for Sunday.
    pub weekday: u32,
    pub hour: u32,
    pub minute: u32,
}

/// The days of the week, from Monday.
pub open spec fn day_name(weekday: int) -> Seq<char> {
    seq!["Lundi"@, "Mardi"@, "Mercredi"@, "Jeudi"@, "Vendredi"@, "Samedi"@, "Dimanche"@][weekday]
}

fn day_name_of(weekday: u32) -> (name: &'static str)
    requires
        weekday < 7,
    ensures
        name@ == day_name(weekday as int),
{
    match weekday {
        0 => "Lundi",
        1 => "Mardi",
        2 => "Mercredi",
        3 => "Jeudi",
        4 => "Vendredi",
        5 => "Samedi",
        _ => "Dimanche",
    }
}

/// The date as the panel spells it: "Samedi 19/09/26", the year on its last
/// two digits.
pub open spec fn date_text(now: LocalTime) -> Seq<char> {
    day_name(now.weekday as int) + " "@ + two_digits(now.day as nat) + "/"@ + two_digits(
        now.month as nat,
    ) + "/"@ + two_digits((now.year % 100) as nat)
}

/// The date as the panel spells it.
pub fn format_date(now: &LocalTime) -> (date: String)
    requires
        now.weekday < 7,
    ensures
        date@ == date_text(*now),
{
    let mut date = String::new();
    date.append(day_name_of(now.weekday));
    date.append(" ");
    let day = two_digit_string(now.day as u64);
    date.append(day.as_str());
    date.append("/");
    let month = two_digit_string(now.month as u64);
    date.append(month.as_str());
    date.append("/");
    let year = ((now.year % 100 + 100) % 100) as u64;
    assert(year == now.year % 100);
    let year_text = two_digit_string(year);
    date.append(year_text.as_str());
    date
}

/// The time as the panel shows it: `HH:MM`.
pub open spec fn time_text(now: LocalTime) -> Seq<char> {
    two_digits(now.hour as nat) + ":"@ + two_digits(now.minute as nat)
}

/// The week starts on Monday, and its seven days have seven different names.
pub proof fn lemma_days_of_the_week(a: int, b: int)
    requires
        0 <= a < 7,
        0 <= b < 7,
    ensures
        day_name(0) == "Lundi"@,
        day_name(6) == "Dimanche"@,
        day_name(a) == day_name(b) ==> a == b,
{
    reveal_strlit("Lundi");
    assert("Lundi"@.len() == 5 && "Lundi"@[0] == 'L');
    reveal_strlit("Mardi");
    assert("Mardi"@.len() == 5 && "Mardi"@[0] == 'M');
    reveal_strlit("Mercredi");
    assert("Mercredi"@.len() == 8 && "Mercredi"@[0] == 'M');
    reveal_strlit("Jeudi");
    assert("Jeudi"@.len() == 5 && "Jeudi"@[0] == 'J');
    reveal_strlit("Vendredi");
    assert("Vendredi"@.len() == 8 && "Vendredi"@[0] == 'V');
    reveal_strlit("Samedi");
    assert("Samedi"@.len() == 6 && "Samedi"@[0] == 'S');
    reveal_strlit("Dimanche");
    assert("Dimanche"@.len() == 8 && "Dimanche"@[0] == 'D');
    let names = seq!["Lundi"@, "Mardi"@, "Mercredi"@, "Jeudi"@, "Vendredi"@, "Samedi"@, "Dimanche"@];
    assert(day_name(a) == names[a] && day_name(b) == names[b]);
    if a != b && names[a] == names[b] {
        assert(names[a].len() == names[b].len() && names[a][0] == names[b][0]);
    }
}

/// The date is the day's name, a space, then day, month and year on two
/// digits each, split by slashes: each reads back as its number (the year
/// as its last two digits).
pub proof fn lemma_date_reads_back(now: LocalTime)
    requires
        now.weekday < 7,
        now.day < 100,
        now.month < 100,
    ensures
        date_text(now).len() == day_name(now.weekday as int).len() + 9,
        date_text(now).take(day_name(now.weekday as int).len() as int) == day_name(now.weekday as int),
        ({
            let rest = date_text(now).skip(day_name(now.weekday as int).len() as int);
            &&& rest[0] == ' '
            &&& rest[3] == '/'
            &&& rest[6] == '/'
            &&& decimal_value(rest.subrange(1, 3)) == now.day
            &&& decimal_value(rest.subrange(4, 6)) == now.month
            &&& decimal_value(rest.subrange(7, 9)) == now.year % 100
        }),
{
    reveal_strlit(" ");
    reveal_strlit("/");
    let name = day_name(now.weekday as int);
    let d = two_digits(now.day as nat);
    let m = two_digits(now.month as nat);
    let y = two_digits((now.year % 100) as nat);
    lemma_two_digits_read_back(now.day as nat);
    lemma_two_digits_read_back(now.month as nat);
    lemma_two_digits_read_back((now.year % 100) as nat);
    let t = date_text(now);
    assert(t =~= name + (seq![' '] + d + seq!['/'] + m + seq!['/'] + y));
    let rest = t.skip(name.len() as int);
    assert(rest =~= seq![' '] + d + seq!['/'] + m + seq!['/'] + y);
    assert(t.take(name.len() as int) =~= name);
    assert(rest.subrange(1, 3) =~= d);
    assert(rest.subrange(4, 6) =~= m);
    assert(rest.subrange(7, 9) =~= y);
}

/// The time is hour and minute on two digits each, split by a colon: each
/// reads back as its number.
pub proof fn lemma_time_reads_back(now: LocalTime)
    requires
        now.hour < 100,
        now.minute < 100,
    ensures
        time_text(now).len() == 5,
        time_text(now)[2] == ':',
        decimal_value(time_text(now).take(2)) == now.hour,
        decimal_value(time_text(now).skip(3)) == now.minute,
{
    reveal_strlit(":");
    let h = two_digits(now.hour as nat);
    let m = two_digits(now.minute as nat);
    lemma_two_digits_read_back(now.hour as nat);
    lemma_two_digits_read_back(now.minute as nat);
    let t = time_text(now);
    assert(t =~= h + seq![':'] + m);
    assert(t.take(2) =~= h);
    assert(t.skip(3) =~= m);
}

/// The time as the panel shows it.
pub fn format_time(now: &LocalTime) -> (time: String)
    ensures
        time@ == time_text(*now),
{
    let mut time = two_digit_string(now.hour as u64);
    time.append(":");
    let minute = two_digit_string(now.minute as u64);
    time.append(minute.as_str());
    time
}

/// The line under a track's title: its artist, then its album when it has one.
pub open spec fn artist_line(artist: Seq<char>, album: Seq<char>) -> Seq<char> {
    if album.len() == 0 {
        artist
    } else {
        artist + " \u{b7} "@ + album
    }
}

/// The line under a track's title.
pub fn player_line(artist: &String, album: &String) -> (line: String)
    ensures
        line@ == artist_line(artist@, album@),
{
    let mut line = artist.clone();
    if !album.as_str().is_empty() {
        line.append(" \u{b7} ");
        line.append(album.as_str());
    }
    line
}

/// `text` after its first space, when it has one.
pub open spec fn after_space(text: Seq<char>) -> Option<Seq<char>> {
    match find_char_from(text, ' ', 0) {
        Some(i) => Some(text.skip(i + 1)),
        None => None,
    }
}

/// A name that loses its first word. When the word that then leads is all
/// digits, it goes too: "Ryzen 9 9900X3D" shrinks to "9900X3D", not
/// "9 9900X3D".
pub open spec fn drop_word(text: Seq<char>) -> Seq<char> {
    let rest = after_space(text).unwrap();
    match find_char_from(rest, ' ', 0) {
        Some(i) => if forall|j: int| 0 <= j < i ==> is_ascii_digit(#[trigger] rest[j]) {
            rest.skip(i + 1)
        } else {
            rest
        },
        None => rest,
    }
}

/// The name after `steps` words were dropped.
pub open spec fn dropped(name: Seq<char>, steps: nat) -> Seq<char>
    decreases steps,
{
    if steps == 0 {
        name
    } else {
        drop_word(dropped(name, (steps - 1) as nat))
    }
}

/// What `fit_title` may give back: `name` with its leading words dropped one
/// at a time while `fits` refused it and a space was left, and no further.
pub open spec fn is_fitted_title<F: Fn(&str) -> bool>(
    fits: F,
    name: Seq<char>,
    fitted: Seq<char>,
) -> bool {
    exists|steps: nat|
        #![trigger dropped(name, steps)]
        fitted == dropped(name, steps) && (forall|j: nat|
            j < steps ==> answers(fits, #[trigger] dropped(name, j), false) && after_space(
                dropped(name, j),
            ) is Some) && (answers(fits, fitted, true) || after_space(fitted) is None)
}

/// A gauge title too long for its column loses its leading words:
/// "Radeon RX 9070 XT" becomes "RX 9070 XT".
pub fn fit_title<F: Fn(&str) -> bool>(name: &str, fits: F) -> (fitted: String)
    requires
        forall|t: &str| call_requires(fits, (t,)),
    ensures
        is_fitted_title(fits, name@, fitted@),
{
    let mut fitted = name.to_owned();
    let ghost mut steps: nat = 0;
    loop
        invariant_except_break
            forall|t: &str| call_requires(fits, (t,)),
            fitted@ == dropped(name@, steps),
            forall|j: nat|
                j < steps ==> answers(fits, #[trigger] dropped(name@, j), false) && after_space(
                    dropped(name@, j),
                ) is Some,
        ensures
            is_fitted_title(fits, name@, fitted@),
        decreases fitted@.len(),
    {
        if probe(&fits, fitted.as_str()) {
            assert(fitted@ == dropped(name@, steps));
            break;
        }
        let chars = chars_of(fitted.as_str());
        let space = match find_char(chars.as_slice(), ' ') {
            Some(i) => i,
            None => {
                assert(fitted@ == dropped(name@, steps));
                break;
            },
        };
        let rest = suffix_chars(chars.as_slice(), space + 1);
        let mut next = suffix_string(chars.as_slice(), space + 1);
        if let Some(second) = find_char(rest.as_slice(), ' ') {
            let mut all_digits = true;
            let mut j: usize = 0;
            while j < second
                invariant
                    second < rest@.len(),
                    rest@.len() == rest.len(),
                    j <= second,
                    all_digits == forall|k: int| 0 <= k < j ==> is_ascii_digit(#[trigger] rest@[k]),
                decreases second - j,
            {
                if rest[j] < '0' || rest[j] > '9' {
                    all_digits = false;
                }
                j = j + 1;
            }
            if all_digits {
                next = suffix_string(rest.as_slice(), second + 1);
            }
        }
        proof {
            assert(after_space(dropped(name@, steps)) == Some(rest@));
            assert(next@ == drop_word(dropped(name@, steps)));
            assert forall|j: nat| j < steps + 1 implies answers(fits, #[trigger] dropped(name@, j), false)
                && after_space(dropped(name@, j)) is Some by {
            }
            steps = steps + 1;
        }
        fitted = next;
    }
    fitted
}

/// How many gauge columns the dashboard has: CPU and GPU, and the power
/// supply when it reports its draw.
pub open spec fn gauge_columns(with_psu: bool) -> int {
    if with_psu {
        3
    } else {
        2
    }
}

/// The width of one gauge column: the left panel shared between the
/// columns, with a gap between two of them.
pub open spec fn gauge_width(with_psu: bool) -> int {
    (LEFT_PANEL_RIGHT - MARGIN - COLUMN_GAP * (gauge_columns(with_psu) - 1)) / gauge_columns(
        with_psu,
    )
}

/// Where the gauge columns start and how wide each is.
pub fn gauge_layout(with_psu: bool) -> (layout: (u32, Vec<i32>))
    ensures
        layout.0 == gauge_width(with_psu),
        layout.1@.len() == gauge_columns(with_psu),
        forall|i: int|
            0 <= i < layout.1@.len() ==> #[trigger] layout.1@[i] == MARGIN + (gauge_width(with_psu)
                + COLUMN_GAP) * i,
{
    let columns: i32 = if with_psu {
        3
    } else {
        2
    };
    let width = (LEFT_PANEL_RIGHT - MARGIN - COLUMN_GAP * (columns - 1)) / columns;
    assert(width == gauge_width(with_psu));
    assert(0 < width < 200);
    let mut lefts: Vec<i32> = Vec::new();
    let mut i: i32 = 0;
    while i < columns
        invariant
            columns == gauge_columns(with_psu),
            width == gauge_width(with_psu),
            0 < width < 200,
            0 <= i <= columns,
            lefts@.len() == i,
            forall|j: int|
                0 <= j < i ==> #[trigger] lefts@[j] == MARGIN + (gauge_width(with_psu)
                    + COLUMN_GAP) * j,
        decreases columns - i,
    {
        assert(0 <= (width + COLUMN_GAP) * i <= 214 * 3) by (nonlinear_arith)
            requires
                0 < width < 200,
                0 <= i < 3,
        ;
        lefts.push(MARGIN + (width + COLUMN_GAP) * i);
        i = i + 1;
    }
    (width as u32, lefts)
}

/// Rust's division of `a` by `b`, which rounds toward zero.
pub open spec fn div_toward_zero(a: int, b: int) -> int {
    if a == 0 {
        0
    } else if a > 0 && b > 0 {
        a / b
    } else if a < 0 && b < 0 {
        (-a) / (-b)
    } else if a < 0 {
        -((-a) / b)
    } else {
        -(a / (-b))
    }
}

/// The width of one fan's cell when `count` fans share the band.
pub fn fan_cell(count: i32) -> (cell: i32)
    requires
        count != 0,
    ensures
        cell == if div_toward_zero((LEFT_PANEL_RIGHT - MARGIN) as int, count as int)
            < MAX_FAN_CELL {
            div_toward_zero((LEFT_PANEL_RIGHT - MARGIN) as int, count as int)
        } else {
            MAX_FAN_CELL as int
        },
{
    let share = match (LEFT_PANEL_RIGHT - MARGIN).checked_div(count) {
        Some(share) => share,
        None => MAX_FAN_CELL,
    };
    if share < MAX_FAN_CELL {
        share
    } else {
        MAX_FAN_CELL
    }
}

/// Where the label and speed of fan `index` are centered: in the middle of
/// its cell.
pub fn fan_center(cell: i32, index: i32) -> (center: i32)
    requires
        i32::MIN <= MARGIN + cell * index + div_toward_zero(cell as int, 2) <= i32::MAX,
        i32::MIN <= cell * index <= i32::MAX,
        i32::MIN <= MARGIN + cell * index <= i32::MAX,
    ensures
        center == MARGIN + cell * index + div_toward_zero(cell as int, 2),
{
    let half = match cell.checked_div(2) {
        Some(half) => half,
        None => 0,
    };
    MARGIN + cell * index + half
}

/// How a "label value" pair of the header is drawn, given the width of the
/// pair with its label and of the value alone: with its label when that
/// fits the room, else the value alone when that fits, else not at all.
/// Comes with the width drawn.
pub open spec fn labelled_choice(with_label: i32, bare: i32, room: i32) -> Option<(bool, i32)> {
    if with_label <= room {
        Some((true, with_label))
    } else if bare <= room {
        Some((false, bare))
    } else {
        None
    }
}

/// How a "label value" pair of the header is drawn. Without room for it,
/// the label goes, then everything.
pub fn labelled_layout(with_label: i32, bare: i32, room: i32) -> (choice: Option<(bool, i32)>)
    ensures
        choice == labelled_choice(with_label, bare, room),
{
    if with_label <= room {
        Some((true, with_label))
    } else if bare <= room {
        Some((false, bare))
    } else {
        None
    }
}

/// The room the player's title has: the text column, less the clock and the
/// gap before it.
pub fn title_room(width: u32, time_width: u32) -> (room: u32)
    requires
        time_width + 10 <= width,
    ensures
        room == width - time_width - 10,
{
    width - time_width - 10
}

} // verus!
