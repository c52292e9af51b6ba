use coordkit::locks::intake::read_request;
use coordkit::locks::protocol::is_valid_lock_name;
use coordkit::locks::protocol::ParseError;
use coordkit::locks::protocol::Request;
use coordkit::locks::protocol::Response;
use coordkit::locks::protocol::ERR_ALREADY_HELD;
use coordkit::locks::protocol::ERR_INVALID_LOCK_NAME;
use coordkit::locks::protocol::MAX_LOCK_NAME;

fn roundtrip_req(req: Request) {
    let wire = req.to_string();
    let parsed: Request = wire.parse().expect("request round-trip");
    assert_eq!(parsed, req);
}

fn roundtrip_resp(resp: Response) {
    let wire = resp.to_string();
    let parsed: Response = wire.parse().expect("response round-trip");
    assert_eq!(parsed, resp);
}

#[test]
fn request_roundtrip_all_variants() {
    roundtrip_req(Request::Acquire("foo".into()));
    roundtrip_req(Request::TryAcquire("bar.baz-qux_1".into()));
    roundtrip_req(Request::Release("ns:lock".into()));
    roundtrip_req(Request::Status("A".into()));
    roundtrip_req(Request::List);
}

#[test]
fn request_rejects_malformed() {
    assert!("".parse::<Request>().is_err());
    assert!("BOGUS".parse::<Request>().is_err());
    assert!("ACQUIRE".parse::<Request>().is_err());
    assert!("ACQUIRE foo bar".parse::<Request>().is_err());
    assert!("LIST extra".parse::<Request>().is_err());
    assert!("ACQUIRE foo!".parse::<Request>().is_err());
    assert!("ACQUIRE ".parse::<Request>().is_err());
}

#[test]
fn request_rejects_oversized_name() {
    let name: String = std::iter::repeat('a').take(MAX_LOCK_NAME + 1).collect();
    let wire = format!("ACQUIRE {}", name);
    assert!(wire.parse::<Request>().is_err());
}

#[test]
fn response_roundtrip_all_variants() {
    roundtrip_resp(Response::Okay);
    roundtrip_resp(Response::Granted("foo".into()));
    roundtrip_resp(Response::Denied("foo".into()));
    roundtrip_resp(Response::StatusFree { name: "x".into(), waiters: 0 });
    roundtrip_resp(Response::StatusHeld { name: "x".into(), holder: 7, waiters: 3 });
    roundtrip_resp(Response::ListBegin);
    roundtrip_resp(Response::ListEntry("foo".into()));
    roundtrip_resp(Response::ListEnd);
    roundtrip_resp(Response::Error("invalid lock name".into()));
}

#[test]
fn response_ignores_unknown_trailing_tokens() {
    // Forward-compat contract: client silently tolerates extra tokens on a
    // recognised verb, so a newer server can extend the wire format.
    let parsed: Response = "GRANTED foo surprise arg".parse().unwrap();
    assert_eq!(parsed, Response::Granted("foo".into()));

    let parsed: Response = "STATUS foo HELD 7 3 extra".parse().unwrap();
    assert_eq!(parsed, Response::StatusHeld { name: "foo".into(), holder: 7, waiters: 3 });
}

#[test]
fn response_rejects_malformed() {
    assert!("STATUS foo HELD".parse::<Response>().is_err());
    assert!("STATUS foo HELD notanumber 0".parse::<Response>().is_err());
    assert!("STATUS".parse::<Response>().is_err());
    assert!("GRANTED".parse::<Response>().is_err());
    assert!("GRANTED bad!name".parse::<Response>().is_err());
}

#[test]
fn wire_texts() {
    assert_eq!(Request::Acquire("a".into()).to_string(), "ACQUIRE a");
    assert_eq!(Request::TryAcquire("a".into()).to_string(), "TRY_ACQUIRE a");
    assert_eq!(Request::Release("a".into()).to_string(), "RELEASE a");
    assert_eq!(Request::Status("a".into()).to_string(), "STATUS a");
    assert_eq!(Request::List.to_string(), "LIST");
    assert_eq!(Response::Okay.to_string(), "OK");
    assert_eq!(
        Response::StatusHeld { name: "x".into(), holder: 120, waiters: 0 }.to_string(),
        "STATUS x HELD 120 0"
    );
    assert_eq!(
        Response::StatusFree { name: "x".into(), waiters: 0 }.to_string(),
        "STATUS x FREE 0"
    );
    assert_eq!(Response::Error("not held".into()).to_string(), "ERR not held");
    assert_eq!(Response::ListBegin.to_string(), "LIST");
    assert_eq!(Response::ListEnd.to_string(), "END");
}

#[test]
fn a_list_entry_named_like_a_verb_is_read_as_that_verb() {
    assert_eq!("END".parse::<Response>().unwrap(), Response::ListEnd);
    assert_eq!(Response::ListEntry("END".into()).to_string(), "END");
}

#[test]
fn lock_names() {
    assert!(is_valid_lock_name("A"));
    assert!(is_valid_lock_name("a.b:c-d_9"));
    assert!(!is_valid_lock_name(""));
    assert!(!is_valid_lock_name("../etc"));
    assert!(!is_valid_lock_name("\u{e4}"));
    assert!(is_valid_lock_name(&"x".repeat(MAX_LOCK_NAME)));
    assert!(!is_valid_lock_name(&"x".repeat(MAX_LOCK_NAME + 1)));
}

#[test]
fn refused_lines_are_answered_from_the_catalogue() {
    let refused = |line: &str| read_request(line).unwrap_err().to_string();
    assert_eq!(refused("ACQUIRE ../etc/passwd"), ERR_INVALID_LOCK_NAME);
    assert_eq!(refused("ACQUIRE "), ERR_INVALID_LOCK_NAME);
    assert_eq!(refused("LIST extra"), ERR_INVALID_LOCK_NAME);
    assert_eq!(refused("FROB x"), "ERR unknown command FROB");
    assert_eq!(refused("  FROB x"), "ERR unknown command FROB");
    assert_eq!(refused("   "), "ERR unknown command    ");
    assert_eq!(read_request("LIST").unwrap(), Request::List);
    assert_eq!(ERR_ALREADY_HELD, "ERR already held");
}

#[test]
fn parse_error_text() {
    assert_eq!(ParseError.message(), "malformed protocol message");
}
