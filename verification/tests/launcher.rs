use madore::launcher::{LaunchAction, LaunchEvent, StopAction, WaitAction, launch, stop_step, wait_step};

#[test]
fn launch_reuses_a_live_server() {
    assert!(matches!(launch(false, LaunchEvent::Begin), LaunchAction::ReadRecord));
    assert!(matches!(launch(false, LaunchEvent::Recorded(Some(7))), LaunchAction::Probe(7)));
    assert!(matches!(launch(false, LaunchEvent::Probed(7, true)), LaunchAction::Open(7)));
    assert!(matches!(launch(true, LaunchEvent::Probed(7, true)), LaunchAction::Done));
}

#[test]
fn launch_starts_a_new_server_otherwise() {
    assert!(matches!(launch(false, LaunchEvent::Recorded(None)), LaunchAction::PickPort));
    assert!(matches!(launch(false, LaunchEvent::Probed(7, false)), LaunchAction::PickPort));
    assert!(matches!(launch(false, LaunchEvent::Picked(9)), LaunchAction::Spawn(9)));
    assert!(matches!(launch(false, LaunchEvent::Spawned(9)), LaunchAction::WaitReady(9)));
    assert!(matches!(launch(false, LaunchEvent::Ready(9, true)), LaunchAction::SavePort(9)));
    assert!(matches!(launch(false, LaunchEvent::Ready(9, false)), LaunchAction::FailNotReady));
    assert!(matches!(launch(false, LaunchEvent::Saved(9)), LaunchAction::Open(9)));
    assert!(matches!(launch(true, LaunchEvent::Saved(9)), LaunchAction::Done));
}

#[test]
fn stop_only_a_live_server_of_this_root() {
    assert!(matches!(stop_step(Some(5), None), StopAction::Probe(5)));
    assert!(matches!(stop_step(Some(5), Some(true)), StopAction::Shutdown(5)));
    assert!(matches!(stop_step(Some(5), Some(false)), StopAction::NotRunning));
    assert!(matches!(stop_step(None, None), StopAction::NotRunning));
}

#[test]
fn waiting_probes_until_the_deadline() {
    assert!(matches!(wait_step(0, 10_000, None), WaitAction::Probe));
    assert!(matches!(wait_step(500, 10_000, Some(false)), WaitAction::Sleep));
    assert!(matches!(wait_step(500, 10_000, Some(true)), WaitAction::Ready));
    assert!(matches!(wait_step(10_000, 10_000, None), WaitAction::TimedOut));
}
