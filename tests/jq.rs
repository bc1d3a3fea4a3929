use std::sync::mpsc::channel;

use jq_edit::app::App;
use jq_edit::jq::{
    decimal_string, fault_output, interpret_exit, settle, signed_decimal_string, ExitOutcome,
    JqClient, JqJob, JqOutput, Received,
};

fn success(s: &str) -> JqOutput {
    JqOutput::Success { json_content: s.to_string() }
}

fn failure(title: &str, failure: &str) -> JqOutput {
    JqOutput::Failure { title: title.to_string(), failure: failure.to_string() }
}

#[test]
fn superseded_job_result_is_never_observed() {
    let (tx1, rx1) = channel();
    let (tx2, rx2) = channel();
    let mut client = JqClient::new();
    client.submit_query(JqJob::from_receiver(rx1));
    client.submit_query(JqJob::from_receiver(rx2));
    assert_eq!(client.try_recv_output(), None);
    let _ = tx1.send(success("first"));
    tx2.send(success("second")).unwrap();
    assert_eq!(client.try_recv_output(), Some(success("second")));
    assert_eq!(client.try_recv_output(), None);
}

#[test]
fn poll_without_job_is_none() {
    let mut client = JqClient::new();
    assert_eq!(client.try_recv_output(), None);
}

#[test]
fn disconnected_worker_is_a_failure() {
    let (tx, rx) = channel::<JqOutput>();
    drop(tx);
    let mut client = JqClient::new();
    client.submit_query(JqJob::from_receiver(rx));
    assert_eq!(
        client.try_recv_output(),
        Some(failure("fault", "channel to jq worker thread disconnected"))
    );
    assert_eq!(client.try_recv_output(), None);
}

#[test]
fn exit_code_two_keeps_previous_output() {
    let out = interpret_exit(
        ExitOutcome::Exited(2),
        Some(String::new()),
        Some("bad syntax".to_string()),
    );
    assert_eq!(out, failure("jq subprocess exited with exit code 2", "bad syntax"));

    let mut app = App::init("[1]");
    app.apply_output(success("{\"a\": 1}\n"));
    assert_eq!(app.filtered_content(), "{\"a\": 1}\n");
    let lines_before = app.scroll_text.lines.len();
    app.apply_output(out);
    assert_eq!(app.filtered_content(), "{\"a\": 1}\n");
    assert_eq!(app.scroll_text.lines.len(), lines_before);
    let panel = app.error.as_ref().expect("error panel");
    assert_eq!(panel.title, "jq subprocess exited with exit code 2");
    assert_eq!(panel.failure, "bad syntax");
    assert!(app.clear_screen);
}

#[test]
fn exit_statuses_map_to_results() {
    assert_eq!(interpret_exit(ExitOutcome::Exited(0), Some("out".to_string()), None), success("out"));
    assert_eq!(interpret_exit(ExitOutcome::Exited(0), None, None), success("<missing stdout>"));
    assert_eq!(
        interpret_exit(ExitOutcome::Exited(5), None, None),
        failure("jq subprocess exited with exit code 5", "<missing stderr>")
    );
    assert_eq!(
        interpret_exit(ExitOutcome::Exited(1), None, Some(String::new())),
        failure("jq subprocess exited with exit code 1", "<no error output>")
    );
    assert_eq!(
        interpret_exit(ExitOutcome::Signaled(9), None, Some("killed".to_string())),
        failure("jq subprocess was ended by signal 9", "killed")
    );
    assert_eq!(
        interpret_exit(ExitOutcome::Signaled(15), None, None),
        failure("jq subprocess was ended by signal 15", "<missing stderr>")
    );
    assert_eq!(
        interpret_exit(ExitOutcome::Other(-3), None, None),
        failure("fault", "This should not occur. The jq subprocess exited (other - -3)")
    );
    assert_eq!(
        interpret_exit(ExitOutcome::Undetermined, None, None),
        failure("fault", "undetermined exit status of jq subprocess")
    );
}

#[test]
fn worker_fault_message() {
    assert_eq!(
        fault_output("No such file".to_string()),
        failure("fault", "jq worker exitted with error: No such file")
    );
}

#[test]
fn settle_each_case() {
    assert_eq!(settle(Received::Ready(success("x"))), Some(success("x")));
    assert_eq!(settle(Received::Pending), None);
    assert_eq!(
        settle(Received::Disconnected),
        Some(failure("fault", "channel to jq worker thread disconnected"))
    );
}

#[test]
fn decimal_formatting() {
    assert_eq!(decimal_string(0), "0");
    assert_eq!(decimal_string(42), "42");
    assert_eq!(decimal_string(4294967295), "4294967295");
    assert_eq!(signed_decimal_string(-2147483648), "-2147483648");
    assert_eq!(signed_decimal_string(17), "17");
}

#[test]
fn app_update_applies_tracked_result() {
    let (tx, rx) = channel();
    let mut app = App::init("1");
    app.submit_query(JqJob::from_receiver(rx));
    app.update();
    assert_eq!(app.filtered_content(), "1");
    assert!(!app.clear_screen);
    tx.send(success("2\n")).unwrap();
    app.update();
    assert_eq!(app.filtered_content(), "2\n");
    assert!(app.error.is_none());
    assert!(app.clear_screen);
    assert!(app.jq_client.maybe_job.is_none());
}
