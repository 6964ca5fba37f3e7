use thermaltaked::session::{monitors_asleep, screen_state, ScreenState};

fn connectors(outputs: &[(&str, &str, &str)]) -> Vec<(Option<String>, Option<String>)> {
    outputs
        .iter()
        .map(|(_, enabled, dpms)| (Some((*enabled).to_owned()), Some((*dpms).to_owned())))
        .collect()
}

#[test]
fn asleep_only_when_every_monitor_is_off() {
    let both_off = connectors(&[
        ("card1-DP-2", "enabled", "Off"),
        ("card1-DP-3", "enabled", "Off"),
        ("card1-HDMI-A-1", "disabled", "Off"),
    ]);
    assert!(monitors_asleep(&both_off));

    let one_on = connectors(&[
        ("card1-DP-2", "enabled", "Off"),
        ("card1-DP-3", "enabled", "On"),
    ]);
    assert!(!monitors_asleep(&one_on));
}

#[test]
fn no_monitor_at_all_is_not_sleep() {
    let unplugged = connectors(&[("card1-DP-1", "disabled", "Off")]);
    assert!(!monitors_asleep(&unplugged));
    assert!(!monitors_asleep(&[]));
}

#[test]
fn unreadable_files_count_as_neither() {
    assert!(!monitors_asleep(&[(None, Some("Off".to_owned()))]));
    assert!(!monitors_asleep(&[(Some("enabled".to_owned()), None)]));
}

#[test]
fn a_locked_session_comes_first() {
    assert_eq!(screen_state(true, true), ScreenState::Locked);
    assert_eq!(screen_state(true, false), ScreenState::Locked);
    assert_eq!(screen_state(false, true), ScreenState::Asleep);
    assert_eq!(screen_state(false, false), ScreenState::Awake);
}

#[test]
fn labels() {
    assert_eq!(ScreenState::Awake.label(), "awake");
    assert_eq!(ScreenState::Asleep.label(), "monitors off");
    assert_eq!(ScreenState::Locked.label(), "session locked");
}
