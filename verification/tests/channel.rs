//! Message-channel behaviour: non-blocking poll, malformed-input
//! resilience, and the inbound display-goal scenario, all through the text
//! form a connection carries.
use coolttviz::channel::{handle_connection, ConnOutcome, MessageQueue, RecvFailure};
use coolttviz::json::render_document;
use coolttviz::message::{decode_message, Message};
use coolttviz::wire::WireValue;

fn str_val(s: &str) -> WireValue {
    WireValue::Str(s.to_string())
}

fn goal_doc(dims: Vec<&str>, context: &str) -> WireValue {
    WireValue::Arr(vec![
        str_val("DisplayGoal"),
        WireValue::Obj(vec![
            (
                "dims".to_string(),
                WireValue::Arr(dims.into_iter().map(str_val).collect()),
            ),
            ("labels".to_string(), WireValue::Arr(vec![])),
            ("context".to_string(), str_val(context)),
            ("cubes".to_string(), WireValue::Arr(vec![])),
        ]),
    ])
}

fn goal_text(dims: Vec<&str>, context: &str) -> String {
    render_document(&goal_doc(dims, context))
}

#[test]
fn poll_on_empty_queue_returns_none() {
    let mut q = MessageQueue::new();
    assert!(q.poll().is_none());
    assert!(q.poll().is_none());
    assert_eq!(q.len(), 0);
}

#[test]
fn inbound_display_goal_scenario() {
    let mut q = MessageQueue::new();
    let text = goal_text(vec!["i", "j"], "hello");
    let outcome = handle_connection(&mut q, &text);
    assert_eq!(outcome, ConnOutcome::Delivered);
    let msg = q.poll().expect("exactly one message");
    let Message::DisplayGoal(goal) = msg;
    assert_eq!(goal.dims, vec!["i".to_string(), "j".to_string()]);
    assert_eq!(goal.context, "hello".to_string());
    assert!(goal.labels.is_empty());
    assert!(goal.cubes.is_empty());
    assert!(q.poll().is_none());
}

#[test]
fn display_goal_text_is_the_fixed_schema() {
    assert_eq!(
        goal_text(vec!["i", "j"], "hello"),
        "[\"DisplayGoal\",{\"dims\":[\"i\",\"j\"],\"labels\":[],\"context\":\"hello\",\"cubes\":[]}]"
            .to_string()
    );
}

#[test]
fn malformed_connections_leave_listener_usable() {
    let mut q = MessageQueue::new();
    // Zero bytes: silently ignored.
    assert_eq!(handle_connection(&mut q, ""), ConnOutcome::Ignored);
    // Truncated payload: the text stops inside the document.
    assert!(matches!(
        handle_connection(&mut q, "[\"DisplayGoal\",{\"dims\":[\"i\""),
        ConnOutcome::Rejected(RecvFailure::Malformed(_))
    ));
    // Unknown tag in an otherwise well-formed document.
    assert!(matches!(
        handle_connection(&mut q, "[\"NotARealTag\",1]"),
        ConnOutcome::Rejected(RecvFailure::Decode(_))
    ));
    // Nothing was enqueued for the malformed attempts.
    assert_eq!(q.len(), 0);
    // A subsequent well-formed connection is processed normally.
    let ok = handle_connection(&mut q, &goal_text(vec!["i"], "ctx"));
    assert_eq!(ok, ConnOutcome::Delivered);
    assert_eq!(q.len(), 1);
    assert!(q.poll().is_some());
}

#[test]
fn fifo_order_of_delivered_messages() {
    let mut q = MessageQueue::new();
    handle_connection(&mut q, &goal_text(vec![], "first"));
    handle_connection(&mut q, &goal_text(vec![], "second"));
    let Message::DisplayGoal(g1) = q.poll().expect("first");
    let Message::DisplayGoal(g2) = q.poll().expect("second");
    assert_eq!(g1.context, "first".to_string());
    assert_eq!(g2.context, "second".to_string());
    assert!(q.poll().is_none());
}

#[test]
fn envelope_failure_names_the_offending_tag() {
    let mut q = MessageQueue::new();
    let outcome = handle_connection(&mut q, "[\"NotARealTag\",1]");
    match outcome {
        ConnOutcome::Rejected(RecvFailure::Decode(err)) => {
            assert_eq!(err.tag, "NotARealTag".to_string());
        },
        other => panic!("expected a decode rejection, got {:?}", other),
    }
}

#[test]
fn message_decode_rejects_wrong_field_order() {
    let doc = WireValue::Arr(vec![
        str_val("DisplayGoal"),
        WireValue::Obj(vec![
            ("labels".to_string(), WireValue::Arr(vec![])),
            ("dims".to_string(), WireValue::Arr(vec![])),
            ("context".to_string(), str_val("x")),
            ("cubes".to_string(), WireValue::Arr(vec![])),
        ]),
    ]);
    assert!(decode_message(doc).is_err());
}

#[test]
fn message_decode_keeps_opaque_payloads() {
    let payload = WireValue::Arr(vec![WireValue::Int(7), WireValue::Bool(true)]);
    let doc = WireValue::Arr(vec![
        str_val("DisplayGoal"),
        WireValue::Obj(vec![
            ("dims".to_string(), WireValue::Arr(vec![])),
            ("labels".to_string(), WireValue::Arr(vec![payload])),
            ("context".to_string(), str_val("")),
            ("cubes".to_string(), WireValue::Arr(vec![])),
        ]),
    ]);
    let Message::DisplayGoal(goal) = decode_message(doc).expect("decodes");
    assert_eq!(goal.labels.len(), 1);
    assert_eq!(
        goal.labels[0],
        WireValue::Arr(vec![WireValue::Int(7), WireValue::Bool(true)])
    );
}
