use closured::control::{
    parse_request, reply_line, report_reply, request_line, settle, show_path, Outcome,
    DEFAULT_CONTROL_SOCKET, DEFAULT_PRELOAD_TTL, MAX_REQUEST,
};

#[test]
fn defaults_of_the_socket() {
    assert_eq!(DEFAULT_CONTROL_SOCKET, "/run/closured/control");
    assert_eq!(DEFAULT_PRELOAD_TTL, 900);
    assert_eq!(MAX_REQUEST, 4096);
}

#[test]
fn requests_are_read_back() {
    for path in ["/nix/store/x-system", "/nix/store/with blank", " /odd", "\u{e9}"] {
        assert_eq!(parse_request(0, &request_line(path)), Ok(path.to_string()));
    }
    assert_eq!(request_line("/nix/store/x"), "preload /nix/store/x\n");
}

#[test]
fn only_root_is_served() {
    for line in ["preload /nix/store/x\n", "", "nonsense"] {
        assert_eq!(parse_request(1000, line), Err("permission denied".to_string()));
    }
}

#[test]
fn unknown_commands_are_refused() {
    assert_eq!(parse_request(0, "status\n"), Err("unknown command `status`".to_string()));
    assert_eq!(parse_request(0, "unload /x\n"), Err("unknown command `unload /x`".to_string()));
    assert_eq!(parse_request(0, "preload\n"), Err("unknown command `preload`".to_string()));
    assert_eq!(parse_request(0, "preload \n"), Err("unknown command `preload`".to_string()));
    assert_eq!(parse_request(0, "\n"), Err("unknown command ``".to_string()));
    assert_eq!(parse_request(0, "preload  /x \n"), Ok(" /x".to_string()));
}

#[test]
fn outcomes_are_settled() {
    assert_eq!(settle(Outcome::ShuttingDown), Err("closured is shutting down".to_string()));
    assert_eq!(settle(Outcome::Lost), Err("request dropped".to_string()));
    assert_eq!(settle(Outcome::Answered(Ok(7))), Ok(7));
    assert_eq!(settle(Outcome::Answered(Err("no".to_string()))), Err("no".to_string()));
}

#[test]
fn answers_are_written() {
    assert_eq!(reply_line(&Ok(0)), "ok 0\n");
    assert_eq!(reply_line(&Ok(12345)), "ok 12345\n");
    assert_eq!(reply_line(&Err("permission denied".to_string())), "err permission denied\n");
}

#[test]
fn confirmations_are_told() {
    assert_eq!(
        report_reply("/nix/store/x", &reply_line(&Ok(42))),
        Ok("closured: preloaded /nix/store/x (42 newly allowed)".to_string())
    );
}

#[test]
fn refusals_are_told() {
    assert_eq!(
        report_reply("/x", &reply_line(&Err("/x is not a store path".to_string()))),
        Err("closured refused the preload: /x is not a store path".to_string())
    );
}

#[test]
fn refusals_are_never_successes() {
    for message in ["", " ", "ok 3", "two\nlines", "\nok 3"] {
        let reply = reply_line(&Err(message.to_string()));
        let read = match reply.find('\n') {
            Some(i) => &reply[..i + 1],
            None => &reply,
        };
        assert!(report_reply("/x", read).is_err(), "{message:?}");
    }
}

#[test]
fn other_answers_are_unexpected() {
    assert_eq!(
        report_reply("/x", ""),
        Err("unexpected reply from closured: \"\"".to_string())
    );
    assert_eq!(
        report_reply("/x", "ok\n"),
        Err("unexpected reply from closured: \"ok\"".to_string())
    );
    assert_eq!(
        report_reply("/x", "what \"now\"\t?\n"),
        Err("unexpected reply from closured: \"what \\\"now\\\"\\t?\"".to_string())
    );
}

#[test]
fn paths_are_shown() {
    assert_eq!(show_path(b"/nix/store/x"), "/nix/store/x");
    assert_eq!(show_path("/\u{e9}".as_bytes()), "/\u{e9}");
    assert_eq!(show_path(b"/\xff/x"), "/\u{fffd}/x");
}
