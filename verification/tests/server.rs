use kv::codec::RespRequest;
use kv::commands::{dispatch, dispatch_read, error_response, get, handle_request, handler_writes, parse_set_command, ping, version};
use kv::commands::{ExistCond, Expiration};
use kv::context::{deadline_exceeded, Context, DEFAULT_RETRIES, DEFAULT_TIMEOUT_MS};
use kv::error::Error;
use kv::registry::{HandlerId, Registry};
use kv::store::Store;
use kv::value::RespValue;

fn bulk(s: &[u8]) -> RespValue {
    RespValue::BulkString(Some(s.to_vec()))
}

fn request(command: &[u8], args: Vec<RespValue>) -> RespRequest {
    RespRequest {
        command: command.to_vec(),
        args,
    }
}

#[test]
fn is_ping_exsits() {
    let command = "PING";
    let registry = Registry::builtin();
    let handler = registry.get_handler(&command.as_bytes().to_vec()).unwrap();
    let context = Context::new(None, 3);
    let req = request(command.as_bytes(), vec![]);
    let mut store = Store::new();
    let response = dispatch(handler, &context, &mut store, req, 0).unwrap();
    assert_eq!(response, RespValue::SimpleString(b"PONG".to_vec()));
}

#[test]
fn ping_ignores_arguments() {
    let context = Context::new(None, 3);
    let req = request(b"PING", vec![bulk(b"x"), RespValue::Integer(3)]);
    assert_eq!(
        ping(&context, req),
        Ok(RespValue::SimpleString(b"PONG".to_vec()))
    );
}

#[test]
fn version_reports_build_metadata() {
    let context = Context::new(None, 3);
    let req = request(b"VERSION", vec![]);
    match version(&context, req) {
        Ok(RespValue::BulkString(Some(text))) => {
            let text = String::from_utf8(text).unwrap();
            assert!(text.contains("Version"));
        }
        other => panic!("unexpected version reply: {:?}", other),
    }
}

#[test]
fn set_then_get_returns_value() {
    let context = Context::new(None, 3);
    let mut store = Store::new();
    let value: &[u8] = b"some \x00 binary \xff value";
    let reply = kv::commands::set(
        &context,
        &mut store,
        request(b"SET", vec![bulk(b"k"), bulk(value)]),
        0,
    );
    assert_eq!(reply, Ok(RespValue::SimpleString(b"OK".to_vec())));
    let got = get(&context, &store, request(b"GET", vec![bulk(b"k")]));
    assert_eq!(got, Ok(bulk(value)));
}

#[test]
fn get_absent_key_returns_null() {
    let context = Context::new(None, 3);
    let store = Store::new();
    let got = get(&context, &store, request(b"GET", vec![bulk(b"nope")]));
    assert_eq!(got, Ok(RespValue::BulkString(None)));
}

#[test]
fn get_wrong_arity_fails() {
    let context = Context::new(None, 3);
    let store = Store::new();
    let got = get(&context, &store, request(b"GET", vec![]));
    assert_eq!(got, Err(Error::WrongArgNumber(b"get".to_vec())));
}

#[test]
fn set_wrong_arity_fails() {
    let context = Context::new(None, 3);
    let mut store = Store::new();
    let reply = kv::commands::set(&context, &mut store, request(b"SET", vec![bulk(b"k")]), 0);
    assert_eq!(reply, Err(Error::WrongArgNumber(b"set".to_vec())));
}

#[test]
fn set_overwrites_and_last_write_wins() {
    let context = Context::new(None, 3);
    let mut store = Store::new();
    let values: Vec<Vec<u8>> = (0..10u8).map(|i| vec![b'v', i]).collect();
    for v in &values {
        let reply = kv::commands::set(
            &context,
            &mut store,
            request(b"SET", vec![bulk(b"shared"), bulk(v)]),
            0,
        );
        assert_eq!(reply, Ok(RespValue::SimpleString(b"OK".to_vec())));
    }
    let got = get(&context, &store, request(b"GET", vec![bulk(b"shared")]));
    // the surviving value is one of the written ones: the last applied
    assert_eq!(got, Ok(bulk(values.last().unwrap())));
}

#[test]
fn set_nx_and_xx_conditions() {
    let context = Context::new(None, 3);
    let mut store = Store::new();
    // XX on an absent key: blocked
    let reply = kv::commands::set(
        &context,
        &mut store,
        request(b"SET", vec![bulk(b"k"), bulk(b"a"), bulk(b"XX")]),
        0,
    );
    assert_eq!(reply, Ok(RespValue::BulkString(None)));
    // NX on an absent key: writes
    let reply = kv::commands::set(
        &context,
        &mut store,
        request(b"SET", vec![bulk(b"k"), bulk(b"a"), bulk(b"NX")]),
        0,
    );
    assert_eq!(reply, Ok(RespValue::SimpleString(b"OK".to_vec())));
    // NX again on the now-present key: blocked, value stays
    let reply = kv::commands::set(
        &context,
        &mut store,
        request(b"SET", vec![bulk(b"k"), bulk(b"b"), bulk(b"NX")]),
        0,
    );
    assert_eq!(reply, Ok(RespValue::BulkString(None)));
    let got = get(&context, &store, request(b"GET", vec![bulk(b"k")]));
    assert_eq!(got, Ok(bulk(b"a")));
}

#[test]
fn set_get_option_returns_previous_value() {
    let context = Context::new(None, 3);
    let mut store = Store::new();
    let reply = kv::commands::set(
        &context,
        &mut store,
        request(b"SET", vec![bulk(b"k"), bulk(b"first"), bulk(b"GET")]),
        0,
    );
    assert_eq!(reply, Ok(RespValue::BulkString(None)));
    let reply = kv::commands::set(
        &context,
        &mut store,
        request(b"SET", vec![bulk(b"k"), bulk(b"second"), bulk(b"GET")]),
        0,
    );
    assert_eq!(reply, Ok(bulk(b"first")));
}

#[test]
fn set_option_parsing() {
    let req = request(
        b"SET",
        vec![
            bulk(b"k"),
            bulk(b"v"),
            bulk(b"EX"),
            bulk(b"10"),
            bulk(b"NX"),
        ],
    );
    let cmd = parse_set_command(req, 1000).unwrap();
    assert_eq!(cmd.key, b"k".to_vec());
    assert_eq!(cmd.value, b"v".to_vec());
    assert_eq!(cmd.option.exist_cond, Some(ExistCond::Nx));
    assert_eq!(cmd.option.expire, Expiration::DeadlineMillis(11000));
    assert!(!cmd.option.get);
}

#[test]
fn set_px_and_keepttl_and_last_condition_wins() {
    let req = request(
        b"SET",
        vec![
            bulk(b"k"),
            bulk(b"v"),
            bulk(b"NX"),
            bulk(b"PX"),
            bulk(b"250"),
            bulk(b"KEEPTTL"),
            bulk(b"XX"),
        ],
    );
    let cmd = parse_set_command(req, 0).unwrap();
    // when NX and XX both appear, the later one wins
    assert_eq!(cmd.option.exist_cond, Some(ExistCond::Xx));
    // KEEPTTL after PX overrides the deadline
    assert_eq!(cmd.option.expire, Expiration::KeepTtl);
}

#[test]
fn set_unknown_option_is_syntax_error() {
    let req = request(b"SET", vec![bulk(b"k"), bulk(b"v"), bulk(b"FROB")]);
    assert_eq!(parse_set_command(req, 0), Err(Error::Syntax));
}

#[test]
fn set_ex_needs_an_integer() {
    let req = request(b"SET", vec![bulk(b"k"), bulk(b"v"), bulk(b"EX")]);
    assert_eq!(parse_set_command(req, 0), Err(Error::Syntax));
    let req = request(
        b"SET",
        vec![bulk(b"k"), bulk(b"v"), bulk(b"EX"), bulk(b"soon")],
    );
    assert_eq!(parse_set_command(req, 0), Err(Error::InvalidInteger));
}

#[test]
fn set_deadline_overflow_is_rejected() {
    let req = request(
        b"SET",
        vec![
            bulk(b"k"),
            bulk(b"v"),
            bulk(b"EX"),
            bulk(b"9223372036854775807"),
        ],
    );
    assert_eq!(parse_set_command(req, 0), Err(Error::InvalidInteger));
}

#[test]
fn unknown_command_names_itself() {
    let registry = Registry::builtin();
    let context = Context::new(None, 3);
    let mut store = Store::new();
    let reply = handle_request(&registry, &context, &mut store, request(b"FOO", vec![]));
    assert_eq!(reply, RespValue::Error(b"Command FOO not found".to_vec()));
}

#[test]
fn lookup_is_case_sensitive() {
    let registry = Registry::builtin();
    assert!(registry.get_handler(&b"ping".to_vec()).is_err());
    assert_eq!(
        registry.get_handler(&b"PING".to_vec()),
        Ok(HandlerId::Ping)
    );
}

#[test]
fn registering_shadows_earlier_entries() {
    let mut registry = Registry::new();
    assert_eq!(
        registry.get_handler(&b"PING".to_vec()),
        Err(Error::CommandNotFound(b"PING".to_vec()))
    );
    registry.register(b"PING".to_vec(), HandlerId::Version);
    registry.register(b"PING".to_vec(), HandlerId::Ping);
    assert_eq!(
        registry.get_handler(&b"PING".to_vec()),
        Ok(HandlerId::Ping)
    );
}

#[test]
fn handle_request_runs_handlers_and_reports_failures() {
    let registry = Registry::builtin();
    let context = Context::new(None, 3);
    let mut store = Store::new();
    let reply = handle_request(
        &registry,
        &context,
        &mut store,
        request(b"SET", vec![bulk(b"k"), bulk(b"v")]),
    );
    assert_eq!(reply, RespValue::SimpleString(b"OK".to_vec()));
    let reply = handle_request(
        &registry,
        &context,
        &mut store,
        request(b"GET", vec![bulk(b"k")]),
    );
    assert_eq!(reply, bulk(b"v"));
    let reply = handle_request(&registry, &context, &mut store, request(b"GET", vec![]));
    assert_eq!(
        reply,
        RespValue::Error(b"wrong number of arguments of 'get' command".to_vec())
    );
}

#[test]
fn store_reports_previous_values() {
    let mut store = Store::new();
    assert_eq!(store.set(b"a".to_vec(), b"1".to_vec()), None);
    assert_eq!(
        store.set(b"a".to_vec(), b"2".to_vec()),
        Some(b"1".to_vec())
    );
    assert_eq!(store.get(&b"a".to_vec()), Some(&b"2".to_vec()));
    assert_eq!(store.get(&b"b".to_vec()), None);
}

#[test]
fn context_retry_budget() {
    let mut context = Context::new(None, 2);
    assert!(context.is_retriable());
    assert_eq!(context.decrease_retries(), Ok(()));
    assert_eq!(context.decrease_retries(), Ok(()));
    assert!(!context.is_retriable());
    // the failing call still lands its decrement, as the atomic
    // fetch-and-subtract it models does
    assert_eq!(context.decrease_retries(), Err(Error::NoRetriesLeft));
    assert_eq!(context.retries, -1);
}

#[test]
fn context_deadline() {
    let context = Context::new(None, DEFAULT_RETRIES);
    assert_eq!(context.is_timeout(), Ok(()));
    let context = Context::new(Some(DEFAULT_TIMEOUT_MS), DEFAULT_RETRIES);
    assert_eq!(context.is_timeout(), Ok(()));
    // the pure deadline check: one millisecond past the deadline trips it
    assert!(!deadline_exceeded(1000, 1000 + DEFAULT_TIMEOUT_MS as i64, DEFAULT_TIMEOUT_MS));
    assert!(deadline_exceeded(1000, 1001 + DEFAULT_TIMEOUT_MS as i64, DEFAULT_TIMEOUT_MS));
    // a clock that runs backwards never counts as exceeded
    assert!(!deadline_exceeded(1000, 0, DEFAULT_TIMEOUT_MS));
}

#[test]
fn timeout_failure_renders_as_protocol_error() {
    // the connection layer races a handler against the deadline and, on
    // expiry, sends the rendered TimedOut failure
    assert_eq!(Error::TimedOut.message(), b"Timeout".to_vec());
    assert_eq!(
        RespValue::Error(Error::TimedOut.message()).write(),
        b"-Timeout\r\n".to_vec()
    );
}

#[test]
fn error_messages() {
    assert_eq!(Error::Syntax.message(), b"syntax error".to_vec());
    assert_eq!(
        Error::WrongArgNumber(b"set".to_vec()).message(),
        b"wrong number of arguments of 'set' command".to_vec()
    );
    assert_eq!(
        Error::WrongType.message(),
        b"WRONGTYPE Operation against a key holding the wrong kind of value".to_vec()
    );
    assert_eq!(
        Error::InvalidInteger.message(),
        b"value is not an integer or out of range".to_vec()
    );
    assert_eq!(
        Error::CommandNotFound(b"FOO".to_vec()).message(),
        b"Command FOO not found".to_vec()
    );
    assert_eq!(Error::NoRetriesLeft.message(), b"No more retries".to_vec());
}

#[test]
fn get_built_info_mentions_version() {
    assert!(kv::built_info::get_built_info().contains("Version"));
}

#[test]
fn values_convert_to_text_and_integers() {
    assert_eq!(bulk(b"abc").as_str(), Ok(&b"abc".to_vec()));
    assert_eq!(
        RespValue::SimpleString(b"abc".to_vec()).as_str(),
        Ok(&b"abc".to_vec())
    );
    assert_eq!(RespValue::BulkString(None).as_str(), Err(Error::WrongType));
    assert_eq!(RespValue::Integer(3).as_str(), Err(Error::WrongType));
    assert_eq!(bulk(b"42").as_i64(), Ok(42));
    assert_eq!(bulk(b"-42").as_i64(), Ok(-42));
    assert_eq!(RespValue::Integer(-3).as_i64(), Ok(-3));
    assert_eq!(bulk(b"4x2").as_i64(), Err(Error::InvalidInteger));
    assert_eq!(RespValue::Array(vec![]).as_i64(), Err(Error::WrongType));
}

#[test]
fn only_set_needs_the_writer_lock() {
    assert!(handler_writes(HandlerId::StoreSet));
    assert!(!handler_writes(HandlerId::StoreGet));
    assert!(!handler_writes(HandlerId::Ping));
    assert!(!handler_writes(HandlerId::Version));
}

#[test]
fn read_handlers_run_without_the_writer_side() {
    let context = Context::new(None, 3);
    let mut store = Store::new();
    let reply = kv::commands::set(
        &context,
        &mut store,
        request(b"SET", vec![bulk(b"k"), bulk(b"v")]),
        0,
    );
    assert_eq!(reply, Ok(RespValue::SimpleString(b"OK".to_vec())));
    let reply = dispatch_read(
        HandlerId::StoreGet,
        &context,
        &store,
        request(b"GET", vec![bulk(b"k")]),
        0,
    );
    assert_eq!(reply, Ok(bulk(b"v")));
    let reply = dispatch_read(HandlerId::Ping, &context, &store, request(b"PING", vec![]), 0);
    assert_eq!(reply, Ok(RespValue::SimpleString(b"PONG".to_vec())));
}

#[test]
fn failures_render_as_protocol_error_values() {
    assert_eq!(
        error_response(&Error::Syntax),
        RespValue::Error(b"syntax error".to_vec())
    );
    assert_eq!(
        error_response(&Error::CommandNotFound(b"NOPE".to_vec())),
        RespValue::Error(b"Command NOPE not found".to_vec())
    );
}

#[test]
fn handle_request_serves_version() {
    let registry = Registry::builtin();
    let context = Context::new(None, 3);
    let mut store = Store::new();
    let reply = handle_request(&registry, &context, &mut store, request(b"VERSION", vec![]));
    match reply {
        RespValue::BulkString(Some(text)) => {
            assert!(String::from_utf8(text).unwrap().contains("Version"))
        }
        other => panic!("unexpected version reply: {:?}", other),
    }
}
