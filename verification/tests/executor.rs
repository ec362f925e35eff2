use memtrack::executor::{pipe_path, preload_variable, Action, Error, ExecResult, Input, PIPE_FILEPATH};
use memtrack::pipe_io::Record;

#[test]
fn pipe_lives_under_tmp() {
    assert_eq!(pipe_path(1234), "/tmp/1234.pipe");
    assert_eq!(pipe_path(0), "/tmp/0.pipe");
    assert_eq!(pipe_path(u32::MAX), "/tmp/4294967295.pipe");
}

#[test]
fn environment_names() {
    assert_eq!(PIPE_FILEPATH, "PIPE_FILEPATH");
    assert_eq!(preload_variable(true), "DYLD_INSERT_LIBRARIES");
    assert_eq!(preload_variable(false), "LD_PRELOAD");
}

#[test]
fn executor_test_exec() {
    let mut run = ExecResult::new(pipe_path(77));
    assert_eq!(run.pipe_filepath(), "/tmp/77.pipe");
    assert_eq!(run.next(Input::Resume), Action::OpenPipe);
    assert_eq!(run.next(Input::Opened), Action::ReadLine);
    assert_eq!(run.next(Input::Line("v 100\n".to_string())), Action::Yield(Ok(Record::Version(100))));
    assert_eq!(run.next(Input::Resume), Action::ReadLine);
    assert_eq!(run.next(Input::Line("# note\n".to_string())), Action::ReadLine);
    assert_eq!(
        run.next(Input::Line("t 10 0\n".to_string())),
        Action::Yield(Ok(Record::Trace { ip: 0x10, parent_idx: 0 }))
    );
    assert_eq!(run.next(Input::EndOfPipe), Action::WaitChild);
    assert_eq!(run.next(Input::Exited(0)), Action::Done);
    assert_eq!(run.next(Input::Resume), Action::Done);
}

#[test]
fn failed_target_ends_the_stream_with_an_error() {
    let mut run = ExecResult::new(pipe_path(1));
    assert_eq!(run.next(Input::Resume), Action::OpenPipe);
    assert_eq!(run.next(Input::Opened), Action::ReadLine);
    assert_eq!(
        run.next(Input::Line("+ 80 0 1000\n".to_string())),
        Action::Yield(Ok(Record::Alloc { ptr: 0x1000, size: 128, parent_idx: 0 }))
    );
    assert_eq!(
        run.next(Input::Line("- 1000\n".to_string())),
        Action::Yield(Ok(Record::Free { ptr: 0x1000 }))
    );
    assert_eq!(run.next(Input::EndOfPipe), Action::WaitChild);
    assert_eq!(run.next(Input::Exited(3)), Action::Yield(Err(Error::CmdFailed(3))));
    assert_eq!(run.next(Input::Resume), Action::Done);
    assert_eq!(run.next(Input::Line("t 1 0\n".to_string())), Action::Done);
}

#[test]
fn negative_status_is_a_failure() {
    let mut run = ExecResult::new(pipe_path(1));
    run.next(Input::Opened);
    run.next(Input::EndOfPipe);
    assert_eq!(run.next(Input::Exited(-1)), Action::Yield(Err(Error::CmdFailed(-1))));
}

#[test]
fn bad_line_is_reported_and_reading_goes_on() {
    let mut run = ExecResult::new(pipe_path(1));
    run.next(Input::Opened);
    assert_eq!(
        run.next(Input::Line("t oops\n".to_string())),
        Action::Yield(Err(Error::PipeError(memtrack::pipe_io::Error::InvalidFormat)))
    );
    assert_eq!(run.next(Input::Resume), Action::ReadLine);
    assert_eq!(
        run.next(Input::ReadFailed("broken pipe".to_string())),
        Action::Yield(Err(Error::PipeError(memtrack::pipe_io::Error::IOError("broken pipe".to_string()))))
    );
    assert_eq!(run.next(Input::Resume), Action::ReadLine);
}

#[test]
fn wait_failure_ends_the_stream() {
    let mut run = ExecResult::new(pipe_path(1));
    run.next(Input::Opened);
    run.next(Input::EndOfPipe);
    assert_eq!(run.next(Input::Resume), Action::WaitChild);
    assert_eq!(
        run.next(Input::WaitFailed("no child".to_string())),
        Action::Yield(Err(Error::CmdError("no child".to_string())))
    );
    assert_eq!(run.next(Input::Resume), Action::Done);
}

#[test]
fn what_does_not_belong_to_the_phase_is_passed_over() {
    let mut run = ExecResult::new(pipe_path(1));
    assert_eq!(run.next(Input::Line("t 1 0\n".to_string())), Action::OpenPipe);
    assert_eq!(run.next(Input::Exited(3)), Action::OpenPipe);
    assert_eq!(run.next(Input::EndOfPipe), Action::OpenPipe);
    assert_eq!(run.next(Input::Opened), Action::ReadLine);
    assert_eq!(run.next(Input::Opened), Action::ReadLine);
    assert_eq!(run.next(Input::Exited(3)), Action::ReadLine);
    assert_eq!(run.next(Input::EndOfPipe), Action::WaitChild);
    assert_eq!(run.next(Input::Line("t 1 0\n".to_string())), Action::WaitChild);
}
