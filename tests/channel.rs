use task_scheduler::channel::{next_step, ListenStep};
use task_scheduler::task::TaskAction;
use task_scheduler::Channel;

/// Runs the listener's decisions over what the channel yields, returning the
/// success-handler calls and the number of error-handler calls.
fn drain(channel: &Channel) -> (Vec<TaskAction>, usize) {
    let rx = channel.task_receiver.lock().unwrap();
    let mut handled = Vec::new();
    let mut errors = 0;
    loop {
        match next_step(rx.recv().ok()) {
            ListenStep::Handle(a) => handled.push(a),
            ListenStep::Finish => break,
            ListenStep::Fail => {
                errors += 1;
                break;
            }
        }
    }
    (handled, errors)
}

#[test]
fn shutdown_stops_the_listener_cleanly() {
    let mut ch = Channel::new();
    ch.send(TaskAction::Execute);
    ch.send(TaskAction::Execute);
    ch.send(TaskAction::Shutdown);
    ch.send(TaskAction::Execute);
    let (handled, errors) = drain(&ch);
    assert_eq!(handled, vec![TaskAction::Execute, TaskAction::Execute]);
    assert_eq!(errors, 0);
}

#[test]
fn closing_the_producer_reports_one_error() {
    let mut ch = Channel::new();
    ch.send(TaskAction::Paused);
    ch.send(TaskAction::Execute);
    let Channel { task_sender, task_receiver, .. } = ch;
    drop(task_sender);
    let rx = task_receiver.lock().unwrap();
    let mut handled = Vec::new();
    let mut errors = 0;
    loop {
        match next_step(rx.recv().ok()) {
            ListenStep::Handle(a) => handled.push(a),
            ListenStep::Finish => break,
            ListenStep::Fail => {
                errors += 1;
                break;
            }
        }
    }
    assert_eq!(handled, vec![TaskAction::Paused, TaskAction::Execute]);
    assert_eq!(errors, 1);
}

#[test]
fn next_step_decides_each_receive() {
    assert_eq!(next_step(Some(TaskAction::Execute)), ListenStep::Handle(TaskAction::Execute));
    assert_eq!(next_step(Some(TaskAction::Paused)), ListenStep::Handle(TaskAction::Paused));
    assert_eq!(next_step(Some(TaskAction::Shutdown)), ListenStep::Finish);
    assert_eq!(next_step(None), ListenStep::Fail);
}

#[test]
fn action_labels() {
    assert_eq!(TaskAction::Execute.label(), "Execute");
    assert_eq!(TaskAction::Paused.label(), "Paused");
    assert_eq!(TaskAction::Shutdown.label(), "Shutdown");
}
