use viy::wait::{wait_step, WaitEvent, WaitStep};

#[test]
fn wait_ends_on_exit_or_signal() {
    assert!(wait_step(WaitEvent::Exited(3)) == WaitStep::Done(Some(3), None));
    assert!(wait_step(WaitEvent::Exited(0)) == WaitStep::Done(Some(0), None));
    assert!(wait_step(WaitEvent::Signaled(9)) == WaitStep::Done(None, Some(9)));
}

#[test]
fn wait_goes_on_after_stops_and_interruptions() {
    assert!(wait_step(WaitEvent::Other) == WaitStep::Again);
    assert!(wait_step(WaitEvent::Interrupted) == WaitStep::Again);
}

#[test]
fn wait_gives_up_without_a_child() {
    assert!(wait_step(WaitEvent::NoChild) == WaitStep::Done(None, None));
    assert!(wait_step(WaitEvent::Failed) == WaitStep::Done(None, None));
}
