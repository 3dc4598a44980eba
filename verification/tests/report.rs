use closured::event::{Action, Classification, ExecEvent};
use closured::report::{
    cstr, handle_event, json_event, malformed_line, text_line, Format, Shown, ECS_VERSION,
    MAX_TIMESTAMP,
};

fn event(classification: u8, action: u8) -> ExecEvent {
    let mut comm = [0u8; 16];
    comm[..4].copy_from_slice(b"bash");
    ExecEvent { pid: 4711, uid: 1000, comm, path: [0; 256], classification, action }
}

#[test]
fn text_ends_at_zero() {
    assert_eq!(cstr(b"abc\0def"), "abc");
    assert_eq!(cstr(b"abc"), "abc");
    assert_eq!(cstr(b""), "");
    assert_eq!(cstr(b"\0"), "");
    assert_eq!(cstr(b"a\xffb\0\xff"), "a\u{fffd}b");
    assert_eq!(cstr("\u{1f600}".as_bytes()), "\u{1f600}");
}

#[test]
fn text_lines() {
    let shown = handle_event(&event(5, 2), b"/tmp/x\0junk", Format::Text, 0, 0);
    match shown {
        Shown::Text(line) => {
            assert_eq!(line, "[OUTSIDE] DENIED pid=4711 uid=1000 comm=bash path=/tmp/x")
        }
        _ => panic!("no text"),
    }
    let labels = ["closure", "STORE  ", "wrapper", "MEMORY ", "DELETED", "OUTSIDE"];
    for class in Classification::ALL {
        let label = labels[class.to_u8() as usize];
        assert_eq!(
            text_line(class, Action::Audit, 1, 0, "c", "/p"),
            format!("[{label}] pid=1 uid=0 comm=c path=/p")
        );
    }
}

#[test]
fn json_events() {
    let shown = handle_event(&event(1, 1), b"/nix/store/x", Format::Json, 1_516_991_409, 453_829_000);
    let json = match shown {
        Shown::Json(json) => json,
        _ => panic!("no JSON"),
    };
    assert_eq!(json.timestamp, "2018-01-26T18:30:09.453Z");
    assert_eq!(json.ecs.version, ECS_VERSION);
    assert_eq!(ECS_VERSION, "8.17");
    assert_eq!(json.event.kind, "event");
    assert_eq!(json.event.category, ["process"]);
    assert_eq!(json.event.event_type, ["start"]);
    assert_eq!(json.event.action, "exec");
    assert_eq!(json.event.outcome, "success");
    assert_eq!(json.event.provider, "closured");
    assert_eq!(json.process.pid, 4711);
    assert_eq!(json.process.name, "bash");
    assert_eq!(json.process.executable, "/nix/store/x");
    assert_eq!(json.user.id, "1000");
    assert_eq!(json.closured.classification, "store");
    assert_eq!(json.closured.action, "audit");
}

#[test]
fn denied_execs_are_failures() {
    let json = json_event(
        Classification::Memory,
        Action::Deny,
        1,
        4_294_967_295,
        "c".to_string(),
        "/p".to_string(),
        "now".to_string(),
    );
    assert_eq!(json.event.outcome, "failure");
    assert_eq!(json.user.id, "4294967295");
    assert_eq!(json.timestamp, "now");
    assert_eq!(json.closured.classification, "memory");
    assert_eq!(json.closured.action, "deny");
}

#[test]
fn malformed_events_are_dropped() {
    for format in [Format::Text, Format::Json] {
        match handle_event(&event(6, 0), b"/p", format, 0, 0) {
            Shown::Malformed(line) => assert_eq!(
                line,
                "dropping malformed event (classification 6, action 0): pid=4711 path=/p"
            ),
            _ => panic!("shown"),
        }
        assert!(matches!(handle_event(&event(0, 3), b"", format, 0, 0), Shown::Malformed(_)));
    }
    assert_eq!(
        malformed_line(255, 9, 0, ""),
        "dropping malformed event (classification 255, action 9): pid=0 path="
    );
}

#[test]
fn timestamps_at_the_edges() {
    let stamp = |secs, nanos| match handle_event(&event(0, 0), b"", Format::Json, secs, nanos) {
        Shown::Json(json) => json.timestamp,
        _ => panic!("no JSON"),
    };
    assert_eq!(stamp(0, 0), "1970-01-01T00:00:00.000Z");
    assert_eq!(stamp(1_704_067_199, 999_999_999), "2023-12-31T23:59:59.999Z");
    assert_eq!(stamp(MAX_TIMESTAMP, 0), "+262142-12-31T23:59:59.000Z");
}
