use wsl2hosts::command::{answer_control, keep_serving, ControlEvent, ControlReply, ShutdownPoll};
use wsl2hosts::command::{
    launch_steps, log_level_name, service_name, task_operation, Cli, LogLevel, Mode, Step, TaskOp,
};

#[test]
fn no_mode_keeps_hosts_up_to_date() {
    let steps = launch_steps(&Cli { mode: None });
    assert_eq!(steps, vec![Step::StartLogging(LogLevel::Info), Step::RefreshForever]);
}

#[test]
fn install_installs_the_service() {
    assert_eq!(launch_steps(&Cli { mode: Some(Mode::Install) }), vec![Step::InstallService]);
    assert_eq!(service_name(), "wsl2hosts.service.1");
}

#[test]
fn remove_removes_the_service() {
    assert_eq!(launch_steps(&Cli { mode: Some(Mode::Remove) }), vec![Step::RemoveService]);
}

#[test]
fn other_modes() {
    assert_eq!(launch_steps(&Cli { mode: Some(Mode::Run) }), vec![Step::Task(TaskOp::Run)]);
    assert_eq!(launch_steps(&Cli { mode: Some(Mode::Stop) }), vec![Step::Task(TaskOp::Stop)]);
    assert_eq!(
        launch_steps(&Cli { mode: Some(Mode::Debug) }),
        vec![Step::StartLogging(LogLevel::Debug), Step::RefreshOnce]
    );
}

#[test]
fn task_operations() {
    assert_eq!(task_operation(Mode::Run), Some(TaskOp::Run));
    assert_eq!(task_operation(Mode::Stop), Some(TaskOp::Stop));
    assert_eq!(task_operation(Mode::Remove), Some(TaskOp::Remove));
    assert_eq!(task_operation(Mode::Install), None);
    assert_eq!(task_operation(Mode::Debug), None);
}

#[test]
fn log_levels() {
    assert_eq!(log_level_name(LogLevel::Info), "info");
    assert_eq!(log_level_name(LogLevel::Debug), "debug");
}

#[test]
fn service_control_answers() {
    assert_eq!(answer_control(ControlEvent::Interrogate), (ControlReply::NoError, false));
    assert_eq!(answer_control(ControlEvent::Stop), (ControlReply::NoError, true));
    assert_eq!(answer_control(ControlEvent::Other), (ControlReply::NotImplemented, false));
    assert!(keep_serving(ShutdownPoll::TimedOut));
    assert!(!keep_serving(ShutdownPoll::Signalled));
    assert!(!keep_serving(ShutdownPoll::Disconnected));
}
