//! The connection pipeline's decisions: how a freshly read request is
//! routed, the exact wire responses the proxy emits itself, the operator
//! console's command grammar, and the relay step of the tunnel.
//!
//! The surrounding process performs the socket work; these functions decide
//! what it does next.

use vstd::prelude::*;

use crate::parsing::{spec_extract_host, spec_is_connect, extract_host, is_connect_chars};
use crate::text::{chars_to_string, eq_chars, spec_tokens, split_tokens, to_chars, spec_trim, trim_chars};

verus! {

// ---------------------------------------------------------------------------
// Routing.
// ---------------------------------------------------------------------------

/// What the pipeline does with a freshly read request, once the blocklist
/// has been consulted for its host.
pub enum Route {
    /// No host could be extracted: answer `400 Bad Request` and close.
    RespondBadRequest,
    /// The host is blocked: answer `403 Forbidden` and close.
    RespondForbidden,
    /// A `CONNECT` request to the carried host: open the tunnel.
    Tunnel(String),
    /// Any other request to the carried host: forward over HTTP.
    Forward(String),
}

/// The mathematical content of a route.
pub enum RouteView {
    RespondBadRequest,
    RespondForbidden,
    Tunnel(Seq<char>),
    Forward(Seq<char>),
}

impl View for Route {
    type V = RouteView;

    open spec fn view(&self) -> RouteView {
        match self {
            Route::RespondBadRequest => RouteView::RespondBadRequest,
            Route::RespondForbidden => RouteView::RespondForbidden,
            Route::Tunnel(h) => RouteView::Tunnel(h@),
            Route::Forward(h) => RouteView::Forward(h@),
        }
    }
}

/// The route of a request whose host was judged `blocked`: no host means a
/// protocol error, a blocked host is refused, a `CONNECT` request opens a
/// tunnel, anything else is forwarded.
pub open spec fn spec_route(s: Seq<char>, blocked: bool) -> RouteView {
    match spec_extract_host(s) {
        None => RouteView::RespondBadRequest,
        Some(h) => if blocked {
            RouteView::RespondForbidden
        } else if spec_is_connect(s) {
            RouteView::Tunnel(h)
        } else {
            RouteView::Forward(h)
        },
    }
}

/// Routes a request, as `spec_route` describes.
pub fn plan_route(request: &str, blocked: bool) -> (r: Route)
    ensures
        r@ == spec_route(request@, blocked),
{
    match extract_host(request) {
        None => Route::RespondBadRequest,
        Some(h) => {
            if blocked {
                Route::RespondForbidden
            } else {
                let chars = to_chars(request);
                if is_connect_chars(chars.as_slice()) {
                    Route::Tunnel(h)
                } else {
                    Route::Forward(h)
                }
            }
        },
    }
}

// ---------------------------------------------------------------------------
// Wire responses.
// ---------------------------------------------------------------------------

/// The reply opening a tunnel.
pub fn connect_established_response() -> (r: String)
    ensures
        r@ == "HTTP/1.1 200 Connection Established\r\n\r\n"@,
{
    String::from_str("HTTP/1.1 200 Connection Established\r\n\r\n")
}

/// The reply when the tunnel's origin cannot be reached.
pub fn bad_gateway_response() -> (r: String)
    ensures
        r@ == "HTTP/1.1 502 Bad Gateway\r\n\r\n"@,
{
    String::from_str("HTTP/1.1 502 Bad Gateway\r\n\r\n")
}

/// The reply when no host can be extracted from a request.
pub fn bad_request_response() -> (r: String)
    ensures
        r@ == "HTTP/1.1 400 Bad Request\r\n\r\n"@,
{
    String::from_str("HTTP/1.1 400 Bad Request\r\n\r\n")
}

/// The reply for a blocked host, byte for byte.
pub fn forbidden_response() -> (r: String)
    ensures
        r@
            == "HTTP/1.1 403 Forbidden\r\nContent-Length: 28\r\nContent-Type: text/plain\r\nConnection: close\r\n\r\nAccess Denied: Blacklisted"@,
{
    String::from_str(
        "HTTP/1.1 403 Forbidden\r\nContent-Length: 28\r\nContent-Type: text/plain\r\nConnection: close\r\n\r\nAccess Denied: Blacklisted",
    )
}

// ---------------------------------------------------------------------------
// Operator console commands.
// ---------------------------------------------------------------------------

/// A parsed console line.
pub enum ConsoleCommand {
    /// `add <host>`: add the host to the blocklist.
    Add(String),
    /// `remove <host>`: remove the host from the blocklist.
    Remove(String),
    /// `list`: show the blocklist.
    List,
    /// `clear`: clear the cache.
    Clear,
    /// `exit`: leave the console.
    Exit,
    /// A known command missing its argument, or an empty line: do nothing.
    NoOp,
    /// Anything else.
    Unknown,
}

/// The mathematical content of a console command.
pub enum CommandView {
    Add(Seq<char>),
    Remove(Seq<char>),
    List,
    Clear,
    Exit,
    NoOp,
    Unknown,
}

impl View for ConsoleCommand {
    type V = CommandView;

    open spec fn view(&self) -> CommandView {
        match self {
            ConsoleCommand::Add(h) => CommandView::Add(h@),
            ConsoleCommand::Remove(h) => CommandView::Remove(h@),
            ConsoleCommand::List => CommandView::List,
            ConsoleCommand::Clear => CommandView::Clear,
            ConsoleCommand::Exit => CommandView::Exit,
            ConsoleCommand::NoOp => CommandView::NoOp,
            ConsoleCommand::Unknown => CommandView::Unknown,
        }
    }
}

/// The tokens of a console line.
pub open spec fn console_tokens(s: Seq<char>) -> Seq<Seq<char>> {
    spec_tokens(spec_trim(s))
}

/// The command a console line denotes.
pub open spec fn spec_console_command(s: Seq<char>) -> CommandView {
    let ts = console_tokens(s);
    if ts.len() == 0 {
        CommandView::NoOp
    } else if ts[0] == "add"@ {
        if ts.len() > 1 {
            CommandView::Add(ts[1])
        } else {
            CommandView::NoOp
        }
    } else if ts[0] == "remove"@ {
        if ts.len() > 1 {
            CommandView::Remove(ts[1])
        } else {
            CommandView::NoOp
        }
    } else if ts[0] == "list"@ {
        CommandView::List
    } else if ts[0] == "clear"@ {
        CommandView::Clear
    } else if ts[0] == "exit"@ {
        CommandView::Exit
    } else {
        CommandView::Unknown
    }
}

/// Parses a console line, as `spec_console_command` describes.
pub fn parse_command(line: &str) -> (r: ConsoleCommand)
    ensures
        r@ == spec_console_command(line@),
{
    let chars = to_chars(line);
    let trimmed = trim_chars(chars.as_slice());
    let toks = split_tokens(trimmed.as_slice());
    if toks.len() == 0 {
        return ConsoleCommand::NoOp;
    }
    proof {
        assert(toks.deep_view()[0] == toks@[0].deep_view());
        assert(toks@[0].deep_view() =~= toks@[0]@);
        reveal_strlit("add");
        reveal_strlit("remove");
        reveal_strlit("list");
        reveal_strlit("clear");
        reveal_strlit("exit");
    }
    let head = &toks[0];
    let add_lit = to_chars("add");
    if eq_chars(head.as_slice(), add_lit.as_slice()) {
        if toks.len() > 1 {
            proof {
                assert(toks.deep_view()[1] == toks@[1].deep_view());
                assert(toks@[1].deep_view() =~= toks@[1]@);
            }
            return ConsoleCommand::Add(chars_to_string(&toks[1]));
        }
        return ConsoleCommand::NoOp;
    }
    let remove_lit = to_chars("remove");
    if eq_chars(head.as_slice(), remove_lit.as_slice()) {
        if toks.len() > 1 {
            proof {
                assert(toks.deep_view()[1] == toks@[1].deep_view());
                assert(toks@[1].deep_view() =~= toks@[1]@);
            }
            return ConsoleCommand::Remove(chars_to_string(&toks[1]));
        }
        return ConsoleCommand::NoOp;
    }
    let list_lit = to_chars("list");
    if eq_chars(head.as_slice(), list_lit.as_slice()) {
        return ConsoleCommand::List;
    }
    let clear_lit = to_chars("clear");
    if eq_chars(head.as_slice(), clear_lit.as_slice()) {
        return ConsoleCommand::Clear;
    }
    let exit_lit = to_chars("exit");
    if eq_chars(head.as_slice(), exit_lit.as_slice()) {
        return ConsoleCommand::Exit;
    }
    ConsoleCommand::Unknown
}

// ---------------------------------------------------------------------------
// The tunnel's relay step.
// ---------------------------------------------------------------------------

/// What one read on a tunnel direction yielded.
pub enum RelayEvent {
    /// `n` bytes were read (0 means the peer closed in an orderly way).
    Bytes(usize),
    /// The read would block; nothing is ready yet.
    WouldBlock,
    /// The peer's pipe broke.
    BrokenPipe,
    /// The peer reset the connection.
    ConnectionReset,
    /// Any other error.
    OtherError,
}

/// What the relay loop does next.
pub enum RelayAction {
    /// Write the first `n` read bytes to the peer and read again.
    Forward(usize),
    /// Sleep briefly, then retry the read.
    RetryAfterPause,
    /// This direction is finished; stop its loop.
    Stop,
}

/// The relay decision: data is forwarded; an empty read, a broken pipe, a
/// reset or any other error ends the direction; a read that would block is
/// retried after a pause.
pub open spec fn spec_relay_step(e: RelayEvent) -> RelayAction {
    match e {
        RelayEvent::Bytes(n) => if n == 0 {
            RelayAction::Stop
        } else {
            RelayAction::Forward(n)
        },
        RelayEvent::WouldBlock => RelayAction::RetryAfterPause,
        RelayEvent::BrokenPipe => RelayAction::Stop,
        RelayEvent::ConnectionReset => RelayAction::Stop,
        RelayEvent::OtherError => RelayAction::Stop,
    }
}

/// Decides the next step of a tunnel direction, as `spec_relay_step`
/// describes.
pub fn relay_step(e: RelayEvent) -> (r: RelayAction)
    ensures
        r == spec_relay_step(e),
{
    match e {
        RelayEvent::Bytes(n) => if n == 0 {
            RelayAction::Stop
        } else {
            RelayAction::Forward(n)
        },
        RelayEvent::WouldBlock => RelayAction::RetryAfterPause,
        RelayEvent::BrokenPipe => RelayAction::Stop,
        RelayEvent::ConnectionReset => RelayAction::Stop,
        RelayEvent::OtherError => RelayAction::Stop,
    }
}

} // verus!
