//! Whether anyone is looking: the monitors' power state and the session lock.

use vstd::prelude::*;

use crate::text::same_text;

verus! {

/// What the dashboard reacts to.
#[derive(Debug, Clone, Copy, PartialEq, Eq, Structural)]
pub enum ScreenState {
    /// Monitors on and session unlocked: the dashboard is worth drawing.
    Awake,
    /// Every monitor is powered down.
    Asleep,
    /// The session is locked, whether or not the monitors are still on.
    Locked,
}

/// Two words for a log line or `thermaltaked info`.
pub open spec fn state_label(state: ScreenState) -> Seq<char> {
    match state {
        ScreenState::Awake => "awake"@,
        ScreenState::Asleep => "monitors off"@,
        ScreenState::Locked => "session locked"@,
    }
}

impl ScreenState {
    /// Two words for a log line or `thermaltaked info`.
    pub fn label(self) -> (label: &'static str)
        ensures
            label@ == state_label(self),
    {
        match self {
            ScreenState::Awake => "awake",
            ScreenState::Asleep => "monitors off",
            ScreenState::Locked => "session locked",
        }
    }
}

/// A connector that drives a monitor: its `enabled` file reads `enabled`.
pub open spec fn drives_monitor(connector: (Option<String>, Option<String>)) -> bool {
    connector.0 matches Some(enabled) && enabled@ == "enabled"@
}

/// A connector whose monitor is powered down: its `dpms` file reads `Off`.
pub open spec fn powered_down(connector: (Option<String>, Option<String>)) -> bool {
    connector.1 matches Some(dpms) && dpms@ == "Off"@
}

/// Monitors are attached, and all of them are powered down.
pub open spec fn all_monitors_asleep(connectors: Seq<(Option<String>, Option<String>)>) -> bool {
    &&& exists|i: int| 0 <= i < connectors.len() && drives_monitor(#[trigger] connectors[i])
    &&& forall|i: int|
        0 <= i < connectors.len() && drives_monitor(#[trigger] connectors[i]) ==> powered_down(
            connectors[i],
        )
}

fn reads(file: &Option<String>, expected: &str) -> (same: bool)
    ensures
        same == (file matches Some(text) && text@ == expected@),
{
    match file {
        Some(text) => same_text(text.as_str(), expected),
        None => false,
    }
}

/// True when monitors are attached and all of them are powered down. Each
/// connector comes as the trimmed contents of its `enabled` and `dpms` files,
/// nothing for a file that cannot be read.
pub fn monitors_asleep(connectors: &[(Option<String>, Option<String>)]) -> (asleep: bool)
    ensures
        asleep == all_monitors_asleep(connectors@),
{
    let mut attached: usize = 0;
    let mut sleeping: usize = 0;
    let mut i: usize = 0;
    while i < connectors.len()
        invariant
            i <= connectors@.len(),
            sleeping <= attached <= i,
            attached > 0 <==> exists|j: int| 0 <= j < i && drives_monitor(#[trigger] connectors@[j]),
            attached == sleeping <==> forall|j: int|
                0 <= j < i && drives_monitor(#[trigger] connectors@[j]) ==> powered_down(
                    connectors@[j],
                ),
        decreases connectors@.len() - i,
    {
        if reads(&connectors[i].0, "enabled") {
            attached = attached + 1;
            if reads(&connectors[i].1, "Off") {
                sleeping = sleeping + 1;
            }
        }
        i = i + 1;
    }
    attached > 0 && attached == sleeping
}

/// A connector that drives no monitor changes nothing: whether the monitors
/// are asleep depends on the connected ones alone.
pub proof fn lemma_unused_connectors_change_nothing(
    connectors: Seq<(Option<String>, Option<String>)>,
    extra: (Option<String>, Option<String>),
)
    requires
        !drives_monitor(extra),
    ensures
        all_monitors_asleep(connectors.push(extra)) == all_monitors_asleep(connectors),
{
    let more = connectors.push(extra);
    assert forall|i: int| 0 <= i < connectors.len() implies #[trigger] more[i] == connectors[i] by {}
    if all_monitors_asleep(connectors) {
        let w = choose|i: int| 0 <= i < connectors.len() && drives_monitor(#[trigger] connectors[i]);
        assert(more[w] == connectors[w]);
    }
    if all_monitors_asleep(more) {
        let w = choose|i: int| 0 <= i < more.len() && drives_monitor(#[trigger] more[i]);
        assert(w < connectors.len());
        assert(more[w] == connectors[w]);
        assert forall|i: int| 0 <= i < connectors.len() && drives_monitor(
            #[trigger] connectors[i],
        ) implies powered_down(connectors[i]) by {
            assert(more[i] == connectors[i]);
        }
    }
}

/// One monitor that is on keeps the screen awake, and without any monitor
/// attached the screen is never taken for asleep.
pub proof fn lemma_one_monitor_on_is_awake(connectors: Seq<(Option<String>, Option<String>)>, i: int)
    requires
        0 <= i < connectors.len(),
        drives_monitor(connectors[i]),
        !powered_down(connectors[i]),
    ensures
        !all_monitors_asleep(connectors),
{
}

/// Without any connector driving a monitor, the monitors are not asleep.
pub proof fn lemma_no_monitor_is_not_asleep(connectors: Seq<(Option<String>, Option<String>)>)
    requires
        forall|i: int| 0 <= i < connectors.len() ==> !drives_monitor(#[trigger] connectors[i]),
    ensures
        !all_monitors_asleep(connectors),
{
}

/// A locked session wins over everything; with the session unlocked, the
/// monitors decide.
pub proof fn lemma_lock_comes_first(locked: bool, asleep: bool)
    ensures
        locked ==> state_of(locked, asleep) == ScreenState::Locked,
        !locked ==> (state_of(locked, asleep) == ScreenState::Asleep <==> asleep),
        state_of(locked, asleep) == ScreenState::Awake <==> !locked && !asleep,
{
}

/// What to draw for: a locked session first, then monitors all asleep.
pub open spec fn state_of(locked: bool, asleep: bool) -> ScreenState {
    if locked {
        ScreenState::Locked
    } else if asleep {
        ScreenState::Asleep
    } else {
        ScreenState::Awake
    }
}

/// The state the dashboard reacts to, from the session's lock and whether
/// the monitors are all asleep.
pub fn screen_state(locked: bool, asleep: bool) -> (state: ScreenState)
    ensures
        state == state_of(locked, asleep),
{
    if locked {
        ScreenState::Locked
    } else if asleep {
        ScreenState::Asleep
    } else {
        ScreenState::Awake
    }
}

} // verus!
