//! The command's decisions: reuse a running server or start one, stop one,
//! and wait for a started one to answer. The caller performs each action and
//! reports what came of it.
use vstd::prelude::*;

verus! {

/// What the launcher has learnt.
pub enum LaunchEvent {
    /// Nothing yet.
    Begin,
    /// The port recorded for this root, if any.
    Recorded(Option<u16>),
    /// Whether a server of this root answers on the port.
    Probed(u16, bool),
    /// A free port was found.
    Picked(u16),
    /// A server process was started on the port.
    Spawned(u16),
    /// Whether the started server answered before the deadline.
    Ready(u16, bool),
    /// The port was recorded for this root.
    Saved(u16),
}

/// What the launcher does next.
pub enum LaunchAction {
    ReadRecord,
    Probe(u16),
    PickPort,
    Spawn(u16),
    WaitReady(u16),
    SavePort(u16),
    /// Open the viewer on this port in a browser.
    Open(u16),
    /// Nothing is left to do.
    Done,
    /// The started server never answered.
    FailNotReady,
}

pub open spec fn launch_spec(no_open: bool, event: LaunchEvent) -> LaunchAction {
    let open = |p: u16| if no_open { LaunchAction::Done } else { LaunchAction::Open(p) };
    match event {
        LaunchEvent::Begin => LaunchAction::ReadRecord,
        LaunchEvent::Recorded(Some(p)) => LaunchAction::Probe(p),
        LaunchEvent::Recorded(None) => LaunchAction::PickPort,
        LaunchEvent::Probed(p, true) => open(p),
        LaunchEvent::Probed(_, false) => LaunchAction::PickPort,
        LaunchEvent::Picked(p) => LaunchAction::Spawn(p),
        LaunchEvent::Spawned(p) => LaunchAction::WaitReady(p),
        LaunchEvent::Ready(p, true) => LaunchAction::SavePort(p),
        LaunchEvent::Ready(_, false) => LaunchAction::FailNotReady,
        LaunchEvent::Saved(p) => open(p),
    }
}

/// The launcher's next step: reuse the server recorded for this root when it
/// answers; otherwise start one on a free port, wait until it answers, record
/// its port, and open the browser on it unless told not to.
pub fn launch(no_open: bool, event: LaunchEvent) -> (a: LaunchAction)
    ensures
        a == launch_spec(no_open, event),
{
    match event {
        LaunchEvent::Begin => LaunchAction::ReadRecord,
        LaunchEvent::Recorded(Some(p)) => LaunchAction::Probe(p),
        LaunchEvent::Recorded(None) => LaunchAction::PickPort,
        LaunchEvent::Probed(p, ok) => {
            if !ok {
                LaunchAction::PickPort
            } else if no_open {
                LaunchAction::Done
            } else {
                LaunchAction::Open(p)
            }
        },
        LaunchEvent::Picked(p) => LaunchAction::Spawn(p),
        LaunchEvent::Spawned(p) => LaunchAction::WaitReady(p),
        LaunchEvent::Ready(p, ok) => {
            if ok {
                LaunchAction::SavePort(p)
            } else {
                LaunchAction::FailNotReady
            }
        },
        LaunchEvent::Saved(p) => {
            if no_open {
                LaunchAction::Done
            } else {
                LaunchAction::Open(p)
            }
        },
    }
}

/// What `--stop` does for a root.
pub enum StopAction {
    Probe(u16),
    /// Ask the server on the port to shut down and forget its record.
    Shutdown(u16),
    NotRunning,
}

/// `--stop`: given the recorded port, probe it; stop the server only when it
/// answers as this root's.
pub fn stop_step(recorded: Option<u16>, probed: Option<bool>) -> (a: StopAction)
    ensures
        a == match (recorded, probed) {
            (Some(p), None) => StopAction::Probe(p),
            (Some(p), Some(true)) => StopAction::Shutdown(p),
            _ => StopAction::NotRunning,
        },
{
    match (recorded, probed) {
        (Some(p), None) => StopAction::Probe(p),
        (Some(p), Some(true)) => StopAction::Shutdown(p),
        _ => StopAction::NotRunning,
    }
}

/// The next step of waiting for a started server.
pub enum WaitAction {
    Probe,
    Sleep,
    Ready,
    TimedOut,
}

/// While the deadline has not passed, probe; a probe that succeeds ends the
/// wait, one that fails is followed by a pause.
pub fn wait_step(elapsed_ms: u64, timeout_ms: u64, probed: Option<bool>) -> (a: WaitAction)
    ensures
        a == match probed {
            Some(true) => WaitAction::Ready,
            Some(false) => WaitAction::Sleep,
            None => if elapsed_ms < timeout_ms {
                WaitAction::Probe
            } else {
                WaitAction::TimedOut
            },
        },
{
    match probed {
        Some(true) => WaitAction::Ready,
        Some(false) => WaitAction::Sleep,
        None => {
            if elapsed_ms < timeout_ms {
                WaitAction::Probe
            } else {
                WaitAction::TimedOut
            }
        },
    }
}

} // verus!
