use roxy::pipeline::{
    bad_gateway_response, bad_request_response, connect_established_response, forbidden_response,
    parse_command, plan_route, relay_step, ConsoleCommand, RelayAction, RelayEvent, Route,
};

#[test]
fn blocked_host_is_refused() {
    let r = plan_route("GET / HTTP/1.1\r\nHost: www.example.com\r\n\r\n", true);
    assert!(matches!(r, Route::RespondForbidden));
}

#[test]
fn connect_request_opens_a_tunnel() {
    let r = plan_route("CONNECT example.com:443 HTTP/1.1\r\n\r\n", false);
    match r {
        Route::Tunnel(h) => assert_eq!(h, "example.com:443"),
        _ => panic!("expected a tunnel"),
    }
}

#[test]
fn plain_request_is_forwarded() {
    let r = plan_route("GET /a HTTP/1.1\r\nHost: origin:80\r\n\r\n", false);
    match r {
        Route::Forward(h) => assert_eq!(h, "origin:80"),
        _ => panic!("expected a forward"),
    }
}

#[test]
fn hostless_request_is_a_protocol_error() {
    let r = plan_route("NONSENSE\r\n\r\n", false);
    assert!(matches!(r, Route::RespondBadRequest));
}

#[test]
fn wire_responses_are_exact() {
    assert_eq!(
        connect_established_response(),
        "HTTP/1.1 200 Connection Established\r\n\r\n"
    );
    assert_eq!(bad_gateway_response(), "HTTP/1.1 502 Bad Gateway\r\n\r\n");
    assert_eq!(bad_request_response(), "HTTP/1.1 400 Bad Request\r\n\r\n");
    assert_eq!(
        forbidden_response(),
        "HTTP/1.1 403 Forbidden\r\nContent-Length: 28\r\nContent-Type: text/plain\r\nConnection: close\r\n\r\nAccess Denied: Blacklisted"
    );
}

#[test]
fn console_commands_are_parsed() {
    match parse_command("add ads.test") {
        ConsoleCommand::Add(h) => assert_eq!(h, "ads.test"),
        _ => panic!("expected add"),
    }
    match parse_command("  remove   ads.test  ") {
        ConsoleCommand::Remove(h) => assert_eq!(h, "ads.test"),
        _ => panic!("expected remove"),
    }
    assert!(matches!(parse_command("list"), ConsoleCommand::List));
    assert!(matches!(parse_command("clear"), ConsoleCommand::Clear));
    assert!(matches!(parse_command("exit"), ConsoleCommand::Exit));
    assert!(matches!(parse_command("add"), ConsoleCommand::NoOp));
    assert!(matches!(parse_command(""), ConsoleCommand::NoOp));
    assert!(matches!(parse_command("frob x"), ConsoleCommand::Unknown));
}

#[test]
fn relay_steps_follow_the_close_semantics() {
    assert!(matches!(
        relay_step(RelayEvent::Bytes(100)),
        RelayAction::Forward(100)
    ));
    assert!(matches!(relay_step(RelayEvent::Bytes(0)), RelayAction::Stop));
    assert!(matches!(
        relay_step(RelayEvent::WouldBlock),
        RelayAction::RetryAfterPause
    ));
    assert!(matches!(relay_step(RelayEvent::BrokenPipe), RelayAction::Stop));
    assert!(matches!(
        relay_step(RelayEvent::ConnectionReset),
        RelayAction::Stop
    ));
    assert!(matches!(relay_step(RelayEvent::OtherError), RelayAction::Stop));
}
