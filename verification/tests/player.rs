use std::time::Duration;

use thermaltaked::player::{
    is_mpris_player, metadata_duration_of, metadata_text_of, now_playing, retry_due, MetaValue,
};

fn text(value: &str) -> MetaValue {
    MetaValue::Text(value.to_owned())
}

fn strings(values: &[&str]) -> MetaValue {
    MetaValue::Array(values.iter().map(|v| Some((*v).to_owned())).collect())
}

#[test]
fn titles_and_artists_are_read() {
    let metadata = vec![
        ("xesam:title".to_owned(), text("Adagio for Strings")),
        ("xesam:artist".to_owned(), strings(&["Tiësto", "Someone Else"])),
    ];
    assert_eq!(
        metadata_text_of(&metadata, "xesam:title").as_deref(),
        Some("Adagio for Strings")
    );
    assert_eq!(
        metadata_text_of(&metadata, "xesam:artist").as_deref(),
        Some("Tiësto, Someone Else")
    );
    assert_eq!(metadata_text_of(&metadata, "xesam:album"), None);
}

#[test]
fn lengths_come_signed_or_not() {
    let metadata = vec![
        ("signed".to_owned(), MetaValue::Signed(418_000_000)),
        ("unsigned".to_owned(), MetaValue::Unsigned(418_000_000)),
        ("negative".to_owned(), MetaValue::Signed(-1)),
    ];
    assert_eq!(
        metadata_duration_of(&metadata, "signed"),
        Some(Duration::from_secs(418))
    );
    assert_eq!(
        metadata_duration_of(&metadata, "unsigned"),
        Some(Duration::from_secs(418))
    );
    assert_eq!(metadata_duration_of(&metadata, "negative"), None);
}

#[test]
fn arrays_without_strings_say_nothing() {
    let metadata = vec![
        ("empty".to_owned(), MetaValue::Array(vec![])),
        ("numbers".to_owned(), MetaValue::Array(vec![None, None])),
        ("mixed".to_owned(), MetaValue::Array(vec![None, Some("A".to_owned())])),
        ("number".to_owned(), MetaValue::Unsigned(3)),
    ];
    assert_eq!(metadata_text_of(&metadata, "empty"), None);
    assert_eq!(metadata_text_of(&metadata, "numbers"), None);
    assert_eq!(metadata_text_of(&metadata, "mixed").as_deref(), Some("A"));
    assert_eq!(metadata_text_of(&metadata, "number"), None);
}

#[test]
fn a_playing_track_is_read_whole() {
    let metadata = vec![
        ("xesam:title".to_owned(), text("Adagio for Strings")),
        ("xesam:artist".to_owned(), strings(&["Tiësto"])),
        ("mpris:artUrl".to_owned(), text("file:///cover.jpg")),
        ("mpris:length".to_owned(), MetaValue::Signed(418_000_000)),
    ];
    let status = text("Playing");
    let position = MetaValue::Unsigned(61_500_000);
    let playing = now_playing(Some(&status), &metadata, Some(&position)).unwrap();
    assert_eq!(playing.track.title, "Adagio for Strings");
    assert_eq!(playing.track.artist, "Tiësto");
    assert_eq!(playing.track.album, "");
    assert_eq!(playing.track.art_url.as_deref(), Some("file:///cover.jpg"));
    assert_eq!(playing.position, Duration::from_micros(61_500_000));
    assert_eq!(playing.length, Some(Duration::from_secs(418)));
    let kept = playing.clone();
    assert_eq!(kept.position, Duration::from_micros(61_500_000));
    assert_eq!(kept.length, playing.length);
    let no_position = now_playing(Some(&status), &metadata, None).unwrap();
    assert_eq!(no_position.position, Duration::ZERO);
}

#[test]
fn paused_or_untitled_players_are_passed_over() {
    let metadata = vec![("xesam:title".to_owned(), text("Adagio"))];
    assert!(now_playing(Some(&text("Paused")), &metadata, None).is_none());
    assert!(now_playing(None, &metadata, None).is_none());
    assert!(now_playing(Some(&strings(&["Playing"])), &metadata, None).is_none());
    let untitled = vec![("xesam:title".to_owned(), text(""))];
    assert!(now_playing(Some(&text("Playing")), &untitled, None).is_none());
    assert!(now_playing(Some(&text("Playing")), &[], None).is_none());
}

#[test]
fn players_are_found_by_their_bus_name() {
    assert!(is_mpris_player("org.mpris.MediaPlayer2.spotify"));
    assert!(!is_mpris_player("org.freedesktop.DBus"));
    assert!(!is_mpris_player("org.mpris.MediaPlayer2"));
}

#[test]
fn the_bus_is_tried_again_after_a_while() {
    assert!(!retry_due(true, 100));
    assert!(!retry_due(false, 29));
    assert!(retry_due(false, 30));
}
