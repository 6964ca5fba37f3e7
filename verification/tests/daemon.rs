use thermaltaked::daemon::{
    color_bar, describe, keep_waiting, frame_for, needs_cover, showing_line, weather_refresh_seconds, Frame,
    LogOnce,
};
use thermaltaked::player::Track;
use thermaltaked::session::ScreenState;

#[test]
fn states_are_described() {
    assert_eq!(describe(ScreenState::Awake), "awake: drawing the dashboard");
    assert_eq!(describe(ScreenState::Asleep), "monitors off: drawing the clock");
    assert_eq!(describe(ScreenState::Locked), "session locked: drawing the clock");
}

#[test]
fn what_plays_takes_the_panel() {
    assert_eq!(frame_for(true, ScreenState::Locked), Frame::Player);
    assert_eq!(frame_for(false, ScreenState::Awake), Frame::Dashboard);
    assert_eq!(frame_for(false, ScreenState::Asleep), Frame::Clock);
    assert_eq!(frame_for(false, ScreenState::Locked), Frame::Clock);
}

#[test]
fn the_log_names_the_track() {
    let track = Track {
        title: "Adagio for Strings".to_owned(),
        artist: "Tiësto".to_owned(),
        album: String::new(),
        art_url: None,
    };
    assert_eq!(
        showing_line(Some(&track), ScreenState::Awake),
        "playing: Tiësto — Adagio for Strings"
    );
    assert_eq!(showing_line(None, ScreenState::Asleep), "monitors off: drawing the clock");
}

#[test]
fn a_repeated_line_is_logged_once() {
    let mut log = LogOnce::new();
    assert!(log.note("LCD unavailable: denied".to_owned()));
    assert!(!log.note("LCD unavailable: denied".to_owned()));
    assert!(log.note("LCD unavailable: gone".to_owned()));
    log.clear();
    assert!(log.note("LCD unavailable: gone".to_owned()));
}

#[test]
fn test_pattern_has_eight_bars() {
    assert_eq!(color_bar(0), [255, 255, 255]);
    assert_eq!(color_bar(59), [255, 255, 255]);
    assert_eq!(color_bar(60), [255, 255, 0]);
    assert_eq!(color_bar(479), [0, 0, 0]);
}

#[test]
fn weather_refresh_is_at_least_a_minute() {
    assert_eq!(weather_refresh_seconds(0), 60);
    assert_eq!(weather_refresh_seconds(1), 60);
    assert_eq!(weather_refresh_seconds(15), 900);
}

#[test]
fn covers_are_fetched_once_per_track() {
    let url = "file:///a.jpg".to_owned();
    assert!(needs_cover(None, &url));
    assert!(!needs_cover(Some(&url), &url));
    assert!(needs_cover(Some(&"file:///b.jpg".to_owned()), &url));
}

#[test]
fn a_preview_waits_for_the_weather_five_seconds_at_most() {
    assert!(keep_waiting(true, 0));
    assert!(keep_waiting(true, 4_999));
    assert!(!keep_waiting(true, 5_000));
    assert!(!keep_waiting(false, 0));
}
