use thermaltaked::art::{percent_decoded, CoverSlot};

fn decoded(path: &str) -> String {
    String::from_utf8(percent_decoded(path)).unwrap()
}

#[test]
fn percent_escapes_come_back() {
    assert_eq!(decoded("/tmp/a%20b.jpg"), "/tmp/a b.jpg");
    assert_eq!(decoded("/plain/path.png"), "/plain/path.png");
}

#[test]
fn accented_paths_survive() {
    assert_eq!(decoded("/music/Beyonc%C3%A9.jpg"), "/music/Beyoncé.jpg");
    assert_eq!(decoded("/music/Beyoncé.jpg"), "/music/Beyoncé.jpg");
}

#[test]
fn broken_escapes_are_copied_as_they_stand() {
    assert_eq!(decoded("/a%zz.jpg"), "/a%zz.jpg");
    assert_eq!(decoded("/a%2"), "/a%2");
    assert_eq!(decoded("/a%"), "/a%");
    assert_eq!(decoded("/a%+Ab"), "/a%+Ab");
    assert_eq!(decoded("/a%4%20b"), "/a%4 b");
    assert_eq!(decoded("%%41"), "%A");
    assert_eq!(decoded("%2f%2F"), "//");
    assert_eq!(percent_decoded("%ff"), vec![0xff]);
}

#[test]
fn the_slot_keeps_the_cover_last_asked_for() {
    let mut slot: CoverSlot<u32> = CoverSlot::new();
    assert!(slot.ask("file:///a.jpg"));
    assert!(!slot.ask("file:///a.jpg"));
    slot.deliver("file:///a.jpg", Some(1));
    assert_eq!(slot.image, Some(1));
    assert!(!slot.ask("file:///a.jpg"));
    assert_eq!(slot.image, Some(1));
    // A new track forgets the old cover; a late delivery for the old one is dropped.
    assert!(slot.ask("file:///b.jpg"));
    assert_eq!(slot.image, None);
    slot.deliver("file:///a.jpg", Some(1));
    assert_eq!(slot.image, None);
    slot.deliver("file:///b.jpg", Some(2));
    assert_eq!(slot.image, Some(2));
}
