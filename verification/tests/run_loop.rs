use timeflip::run_loop::{settle, Completion, Notice, RunLoop, Verdict};

#[test]
fn interrupt_is_a_graceful_exit() {
    assert_eq!(
        settle::<String>(Completion::Interrupted),
        Verdict { exit: Ok(()), notice: Notice::ShuttingDown }
    );
}

#[test]
fn background_exit_is_logged_and_graceful() {
    assert_eq!(
        settle(Completion::BackgroundExited(Err("adapter gone".to_string()))),
        Verdict { exit: Ok(()), notice: Notice::BackgroundExited(Some("adapter gone".to_string())) }
    );
    assert_eq!(
        settle::<String>(Completion::BackgroundExited(Ok(()))),
        Verdict { exit: Ok(()), notice: Notice::BackgroundExited(None) }
    );
}

#[test]
fn command_result_is_the_exit_status() {
    assert_eq!(
        settle::<String>(Completion::CommandFinished(Ok(()))),
        Verdict { exit: Ok(()), notice: Notice::Silent }
    );
    assert_eq!(
        settle(Completion::CommandFinished(Err("config is mandatory".to_string()))),
        Verdict { exit: Err("config is mandatory".to_string()), notice: Notice::Silent }
    );
}

#[test]
fn interrupt_before_command_wins_whatever_the_command_yields() {
    let mut race = RunLoop::new();
    assert!(!race.is_settled());
    assert!(race.observe(Completion::Interrupted));
    assert!(race.is_settled());
    assert!(!race.observe(Completion::CommandFinished(Err("too late".to_string()))));
    assert!(!race.observe(Completion::BackgroundExited(Err("too late".to_string()))));
    assert_eq!(
        race.into_verdict(),
        Some(Verdict { exit: Ok(()), notice: Notice::ShuttingDown })
    );
}

#[test]
fn failed_command_before_interrupt_fails_the_process() {
    let mut race = RunLoop::new();
    assert!(race.observe(Completion::CommandFinished(Err("no device".to_string()))));
    assert!(!race.observe(Completion::Interrupted));
    assert_eq!(
        race.into_verdict(),
        Some(Verdict { exit: Err("no device".to_string()), notice: Notice::Silent })
    );
}

#[test]
fn undecided_race_has_no_verdict() {
    let race: RunLoop<String> = RunLoop::new();
    assert!(!race.is_settled());
    assert_eq!(race.into_verdict(), None);
}
