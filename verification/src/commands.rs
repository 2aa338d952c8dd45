//! The built-in command handlers and the dispatch step that routes a
//! request to one of them.
//!
//! Every handler owns its argument validation: a wrong argument count or a
//! wrong value kind is a typed failure, never a panic.  The dispatch step
//! turns any such failure into a protocol error value, so the connection
//! stays open.

use vstd::prelude::*;
use vstd::string::StringSliceAdditionalSpecFns;

use crate::built_info::{built_info_bytes, spec_built_info_bytes};
use crate::bytes::{bytes_eq, str_bytes};
use crate::codec::{RespRequest, RespRequestData};
use crate::context::Context;
use crate::error::{spec_command_not_found_msg, spec_message, Error, ErrorData};
use crate::registry::{HandlerId, Registry};
use crate::store::Store;
use crate::value::{seq_views, spec_arg_bytes, spec_arg_i64, RespData, RespValue};

verus! {

/// Precondition on a key's existence that a SET may carry.
#[derive(Debug, Clone, Copy, PartialEq, Eq, Structural)]
pub enum ExistCond {
    /// Write only if the key does not exist yet.
    Nx,
    /// Write only if the key already exists.
    Xx,
}

/// When a written key should expire.  The store does not implement
/// expiry yet, so a parsed deadline is carried but not enforced.
#[derive(Debug, Clone, Copy, PartialEq, Eq, Structural)]
pub enum Expiration {
    /// No expiry.
    Never,
    /// Keep whatever time-to-live the key already had.
    KeepTtl,
    /// Absolute deadline, in wall-clock milliseconds.
    DeadlineMillis(i64),
}

/// The option tokens a SET carries, in their parsed form.
#[derive(Debug, Clone, Copy, PartialEq, Eq, Structural)]
pub struct SetOption {
    /// NX or XX, if either was given; when both appear, the last one wins.
    pub exist_cond: Option<ExistCond>,
    /// Whether the reply should be the key's previous value.
    pub get: bool,
    /// EX, PX or KEEPTTL, if given; when several appear, the last one
    /// wins.
    pub expire: Expiration,
}

/// A fully parsed SET: key, value and options.
#[derive(Debug, PartialEq, Eq)]
pub struct SetCommand {
    /// The key to write.
    pub key: Vec<u8>,
    /// The value to write.
    pub value: Vec<u8>,
    /// The parsed option tokens.
    pub option: SetOption,
}

/// Ghost model of a parsed SET.
pub struct SetCommandData {
    /// The key to write.
    pub key: Seq<u8>,
    /// The value to write.
    pub value: Seq<u8>,
    /// The parsed option tokens.
    pub option: SetOption,
}

impl View for SetCommand {
    type V = SetCommandData;

    open spec fn view(&self) -> SetCommandData {
        SetCommandData { key: self.key@, value: self.value@, option: self.option }
    }
}

/// What folding the option tokens `args` into `acc` yields.  `EX` and
/// `PX` take an integer and fix an absolute deadline from `now_ms`; a
/// deadline outside the 64-bit range is an integer failure.  An
/// unrecognized token is a syntax failure.
pub open spec fn spec_set_options(args: Seq<RespData>, now_ms: i64, acc: SetOption) -> Result<
    SetOption,
    ErrorData,
>
    decreases args.len(),
{
    if args.len() == 0 {
        Ok(acc)
    } else {
        match spec_arg_bytes(args[0]) {
            None => Err(ErrorData::WrongType),
            Some(tok) => {
                if tok == "EX".spec_bytes() {
                    if args.len() == 1 {
                        Err(ErrorData::Syntax)
                    } else {
                        match spec_arg_i64(args[1]) {
                            Err(e) => Err(e),
                            Ok(sec) => {
                                let dl = now_ms + sec * 1000;
                                if i64::MIN <= dl <= i64::MAX {
                                    spec_set_options(
                                        args.skip(2),
                                        now_ms,
                                        SetOption {
                                            exist_cond: acc.exist_cond,
                                            get: acc.get,
                                            expire: Expiration::DeadlineMillis(dl as i64),
                                        },
                                    )
                                } else {
                                    Err(ErrorData::InvalidInteger)
                                }
                            },
                        }
                    }
                } else if tok == "PX".spec_bytes() {
                    if args.len() == 1 {
                        Err(ErrorData::Syntax)
                    } else {
                        match spec_arg_i64(args[1]) {
                            Err(e) => Err(e),
                            Ok(ms) => {
                                let dl = now_ms + ms;
                                if i64::MIN <= dl <= i64::MAX {
                                    spec_set_options(
                                        args.skip(2),
                                        now_ms,
                                        SetOption {
                                            exist_cond: acc.exist_cond,
                                            get: acc.get,
                                            expire: Expiration::DeadlineMillis(dl as i64),
                                        },
                                    )
                                } else {
                                    Err(ErrorData::InvalidInteger)
                                }
                            },
                        }
                    }
                } else if tok == "NX".spec_bytes() {
                    spec_set_options(
                        args.skip(1),
                        now_ms,
                        SetOption {
                            exist_cond: Some(ExistCond::Nx),
                            get: acc.get,
                            expire: acc.expire,
                        },
                    )
                } else if tok == "XX".spec_bytes() {
                    spec_set_options(
                        args.skip(1),
                        now_ms,
                        SetOption {
                            exist_cond: Some(ExistCond::Xx),
                            get: acc.get,
                            expire: acc.expire,
                        },
                    )
                } else if tok == "KEEPTTL".spec_bytes() {
                    spec_set_options(
                        args.skip(1),
                        now_ms,
                        SetOption {
                            exist_cond: acc.exist_cond,
                            get: acc.get,
                            expire: Expiration::KeepTtl,
                        },
                    )
                } else if tok == "GET".spec_bytes() {
                    spec_set_options(
                        args.skip(1),
                        now_ms,
                        SetOption { exist_cond: acc.exist_cond, get: true, expire: acc.expire },
                    )
                } else {
                    Err(ErrorData::Syntax)
                }
            },
        }
    }
}

/// The options a SET starts from before any token is read.
pub open spec fn spec_default_options() -> SetOption {
    SetOption { exist_cond: None, get: false, expire: Expiration::Never }
}

/// What parsing a SET's arguments yields: the first two positional
/// arguments are key and value, both string-typed and required; the rest
/// are option tokens.
pub open spec fn spec_parse_set(args: Seq<RespData>, now_ms: i64) -> Result<
    SetCommandData,
    ErrorData,
> {
    if args.len() == 0 {
        Err(ErrorData::WrongArgNumber("set".spec_bytes()))
    } else {
        match spec_arg_bytes(args[0]) {
            None => Err(ErrorData::WrongType),
            Some(key) => {
                if args.len() == 1 {
                    Err(ErrorData::WrongArgNumber("set".spec_bytes()))
                } else {
                    match spec_arg_bytes(args[1]) {
                        None => Err(ErrorData::WrongType),
                        Some(value) => match spec_set_options(
                            args.skip(2),
                            now_ms,
                            spec_default_options(),
                        ) {
                            Ok(option) => Ok(SetCommandData { key, value, option }),
                            Err(e) => Err(e),
                        },
                    }
                }
            },
        }
    }
}

/// Reads a SET request apart: key, value, then option tokens in order.
/// `now_ms` is the wall-clock reading the expiry options are measured
/// from.  When NX and XX both appear, the later one wins, as it does when
/// an expiry option is repeated.
pub fn parse_set_command(request: RespRequest, now_ms: i64) -> (r: Result<SetCommand, Error>)
    ensures
        match r {
            Ok(cmd) => spec_parse_set(request@.args, now_ms) == Ok::<SetCommandData, ErrorData>(
                cmd@,
            ),
            Err(e) => spec_parse_set(request@.args, now_ms) == Err::<SetCommandData, ErrorData>(
                e@,
            ),
        },
{
    let ghost argviews = request@.args;
    let args = &request.args;
    if args.len() == 0 {
        return Err(Error::WrongArgNumber(str_bytes("set")));
    }
    proof {
        assert(argviews[0] == args@[0]@);
    }
    let key = match args[0].as_str() {
        Ok(b) => vstd::slice::slice_to_vec(b.as_slice()),
        Err(e) => {
            return Err(e);
        },
    };
    if args.len() == 1 {
        return Err(Error::WrongArgNumber(str_bytes("set")));
    }
    proof {
        assert(argviews[1] == args@[1]@);
    }
    let value = match args[1].as_str() {
        Ok(b) => vstd::slice::slice_to_vec(b.as_slice()),
        Err(e) => {
            return Err(e);
        },
    };
    let tok_ex = str_bytes("EX");
    let tok_px = str_bytes("PX");
    let tok_nx = str_bytes("NX");
    let tok_xx = str_bytes("XX");
    let tok_keepttl = str_bytes("KEEPTTL");
    let tok_get = str_bytes("GET");
    let mut option = SetOption { exist_cond: None, get: false, expire: Expiration::Never };
    let mut idx: usize = 2;
    while idx < args.len()
        invariant
            2 <= idx <= args@.len(),
            argviews == request@.args,
            argviews == seq_views(args@),
            argviews.len() >= 2,
            spec_arg_bytes(argviews[0]) == Some(key@),
            spec_arg_bytes(argviews[1]) == Some(value@),
            tok_ex@ == "EX".spec_bytes(),
            tok_px@ == "PX".spec_bytes(),
            tok_nx@ == "NX".spec_bytes(),
            tok_xx@ == "XX".spec_bytes(),
            tok_keepttl@ == "KEEPTTL".spec_bytes(),
            tok_get@ == "GET".spec_bytes(),
            spec_set_options(argviews.skip(2), now_ms, spec_default_options())
                == spec_set_options(argviews.skip(idx as int), now_ms, option),
        decreases args@.len() - idx,
    {
        let ghost tail = argviews.skip(idx as int);
        proof {
            assert(tail[0] == argviews[idx as int]);
            assert(argviews[idx as int] == args@[idx as int]@);
            assert(tail.len() == argviews.len() - idx);
        }
        let tok = match args[idx].as_str() {
            Ok(b) => b,
            Err(e) => {
                return Err(e);
            },
        };
        if bytes_eq(tok, &tok_ex) || bytes_eq(tok, &tok_px) {
            let scale: i64 = if bytes_eq(tok, &tok_ex) {
                1000
            } else {
                1
            };
            if idx + 1 == args.len() {
                return Err(Error::Syntax);
            }
            proof {
                assert(tail[1] == argviews[idx as int + 1]);
                assert(argviews[idx as int + 1] == args@[idx as int + 1]@);
            }
            let amount = match args[idx + 1].as_i64() {
                Ok(v) => v,
                Err(e) => {
                    return Err(e);
                },
            };
            assert((amount as int) * (scale as int) <= 9223372036854775807000 && (amount as int)
                * (scale as int) >= -9223372036854775808000) by (nonlinear_arith)
                requires
                    -9223372036854775808 <= amount as int <= 9223372036854775807,
                    1 <= scale as int <= 1000,
            ;
            let wide: i128 = (now_ms as i128) + (amount as i128) * (scale as i128);
            if wide > i64::MAX as i128 || wide < i64::MIN as i128 {
                return Err(Error::InvalidInteger);
            }
            option =
            SetOption {
                exist_cond: option.exist_cond,
                get: option.get,
                expire: Expiration::DeadlineMillis(wide as i64),
            };
            proof {
                assert(tail.skip(2) =~= argviews.skip(idx as int + 2));
            }
            idx = idx + 2;
        } else {
            if bytes_eq(tok, &tok_nx) {
                option =
                SetOption {
                    exist_cond: Some(ExistCond::Nx),
                    get: option.get,
                    expire: option.expire,
                };
            } else if bytes_eq(tok, &tok_xx) {
                option =
                SetOption {
                    exist_cond: Some(ExistCond::Xx),
                    get: option.get,
                    expire: option.expire,
                };
            } else if bytes_eq(tok, &tok_keepttl) {
                option =
                SetOption {
                    exist_cond: option.exist_cond,
                    get: option.get,
                    expire: Expiration::KeepTtl,
                };
            } else if bytes_eq(tok, &tok_get) {
                option =
                SetOption {
                    exist_cond: option.exist_cond,
                    get: true,
                    expire: option.expire,
                };
            } else {
                return Err(Error::Syntax);
            }
            proof {
                assert(tail.skip(1) =~= argviews.skip(idx as int + 1));
            }
            idx = idx + 1;
        }
    }
    proof {
        assert(argviews.skip(argviews.len() as int).len() == 0);
    }
    Ok(SetCommand { key, value, option })
}

/// The ghost outcome of an executable handler result.
pub open spec fn res_view(r: Result<RespValue, Error>) -> Result<RespData, ErrorData> {
    match r {
        Ok(v) => Ok(v@),
        Err(e) => Err(e@),
    }
}

/// What GET yields against store contents `m`: the value under its one
/// key argument as a bulk string, the null bulk string if the key is
/// absent, and a typed failure on bad arity or a non-string key.
pub open spec fn spec_get(m: Map<Seq<u8>, Seq<u8>>, req: RespRequestData) -> Result<
    RespData,
    ErrorData,
> {
    if req.args.len() != 1 {
        Err(ErrorData::WrongArgNumber("get".spec_bytes()))
    } else {
        match spec_arg_bytes(req.args[0]) {
            None => Err(ErrorData::WrongType),
            Some(k) => {
                if m.contains_key(k) {
                    Ok(RespData::BulkString(Some(m[k])))
                } else {
                    Ok(RespData::BulkString(None))
                }
            },
        }
    }
}

/// What SET yields against store contents `m`, and the contents it
/// leaves behind.  An NX or XX precondition that fails blocks the write;
/// the reply is `OK`, or the key's previous value when the GET option was
/// given, or the null bulk string when the precondition blocked a plain
/// write.
pub open spec fn spec_set(m: Map<Seq<u8>, Seq<u8>>, req: RespRequestData, now_ms: i64) -> (
    Result<RespData, ErrorData>,
    Map<Seq<u8>, Seq<u8>>,
) {
    match spec_parse_set(req.args, now_ms) {
        Err(e) => (Err(e), m),
        Ok(cmd) => {
            let exists_k = m.contains_key(cmd.key);
            let blocked = match cmd.option.exist_cond {
                Some(ExistCond::Nx) => exists_k,
                Some(ExistCond::Xx) => !exists_k,
                None => false,
            };
            let m2 = if blocked {
                m
            } else {
                m.insert(cmd.key, cmd.value)
            };
            let prev = if exists_k {
                RespData::BulkString(Some(m[cmd.key]))
            } else {
                RespData::BulkString(None)
            };
            let reply = if cmd.option.get {
                prev
            } else if blocked {
                RespData::BulkString(None)
            } else {
                RespData::SimpleString("OK".spec_bytes())
            };
            (Ok(reply), m2)
        },
    }
}

/// Replies `PONG`, whatever the argument list looks like: arguments are
/// ignored, as the wire command does.
pub fn ping(_context: &Context, _request: RespRequest) -> (r: Result<RespValue, Error>)
    ensures
        res_view(r) == Ok::<RespData, ErrorData>(RespData::SimpleString("PONG".spec_bytes())),
{
    Ok(RespValue::SimpleString(str_bytes("PONG")))
}

/// Replies with the build metadata as a bulk string.
pub fn version(_context: &Context, _request: RespRequest) -> (r: Result<RespValue, Error>)
    ensures
        res_view(r) == Ok::<RespData, ErrorData>(
            RespData::BulkString(Some(spec_built_info_bytes())),
        ),
{
    Ok(RespValue::BulkString(Some(built_info_bytes())))
}

/// Writes a key.  `now_ms` is the clock reading the expiry options are
/// measured from.  The store mutation is one `Store::set` call, so under
/// the composition root's writer lock it is indivisible.
pub fn set(_context: &Context, store: &mut Store, request: RespRequest, now_ms: i64) -> (r:
    Result<RespValue, Error>)
    requires
        old(store).wf(),
    ensures
        final(store).wf(),
        res_view(r) == spec_set(old(store)@, request@, now_ms).0,
        final(store)@ == spec_set(old(store)@, request@, now_ms).1,
{
    let cmd = match parse_set_command(request, now_ms) {
        Ok(cmd) => cmd,
        Err(e) => {
            return Err(e);
        },
    };
    let exists_k: bool;
    let prev: Option<Vec<u8>>;
    match store.get(&cmd.key) {
        Some(v) => {
            exists_k = true;
            prev = Some(vstd::slice::slice_to_vec(v.as_slice()));
        },
        None => {
            exists_k = false;
            prev = None;
        },
    }
    let blocked = match cmd.option.exist_cond {
        Some(ExistCond::Nx) => exists_k,
        Some(ExistCond::Xx) => !exists_k,
        None => false,
    };
    if !blocked {
        let _ = store.set(cmd.key, cmd.value);
    }
    if cmd.option.get {
        match prev {
            Some(v) => Ok(RespValue::BulkString(Some(v))),
            None => Ok(RespValue::BulkString(None)),
        }
    } else if blocked {
        Ok(RespValue::BulkString(None))
    } else {
        Ok(RespValue::SimpleString(str_bytes("OK")))
    }
}

/// Reads a key: its value as a bulk string, or the null bulk string if
/// the key is absent.
pub fn get(_context: &Context, store: &Store, request: RespRequest) -> (r: Result<
    RespValue,
    Error,
>)
    requires
        store.wf(),
    ensures
        res_view(r) == spec_get(store@, request@),
{
    if request.args.len() != 1 {
        return Err(Error::WrongArgNumber(str_bytes("get")));
    }
    proof {
        assert(request@.args[0] == request.args@[0]@);
    }
    let key = match request.args[0].as_str() {
        Ok(b) => b,
        Err(e) => {
            return Err(e);
        },
    };
    match store.get(key) {
        Some(v) => Ok(RespValue::BulkString(Some(vstd::slice::slice_to_vec(v.as_slice())))),
        None => Ok(RespValue::BulkString(None)),
    }
}

/// What the handler named `id` yields against store contents `m`, and
/// the contents it leaves behind.
pub open spec fn spec_dispatch(
    id: HandlerId,
    m: Map<Seq<u8>, Seq<u8>>,
    req: RespRequestData,
    now_ms: i64,
) -> (Result<RespData, ErrorData>, Map<Seq<u8>, Seq<u8>>) {
    match id {
        HandlerId::Ping => (Ok(RespData::SimpleString("PONG".spec_bytes())), m),
        HandlerId::Version => (Ok(RespData::BulkString(Some(spec_built_info_bytes()))), m),
        HandlerId::StoreGet => (spec_get(m, req), m),
        HandlerId::StoreSet => spec_set(m, req, now_ms),
    }
}

/// Runs the handler named `id`.  This is the one switch from a handler's
/// name to its behaviour; registering a new command adds one arm here.
pub fn dispatch(
    id: HandlerId,
    context: &Context,
    store: &mut Store,
    request: RespRequest,
    now_ms: i64,
) -> (r: Result<RespValue, Error>)
    requires
        old(store).wf(),
    ensures
        final(store).wf(),
        res_view(r) == spec_dispatch(id, old(store)@, request@, now_ms).0,
        final(store)@ == spec_dispatch(id, old(store)@, request@, now_ms).1,
{
    match id {
        HandlerId::Ping => ping(context, request),
        HandlerId::Version => version(context, request),
        HandlerId::StoreGet => get(context, store, request),
        HandlerId::StoreSet => set(context, store, request, now_ms),
    }
}

/// What serving one request yields, given how the registry resolved the
/// command: the reply value — a protocol error value when the handler
/// failed or the command is unknown — and the store contents left behind.
pub open spec fn spec_handle(
    resolved: Option<HandlerId>,
    m: Map<Seq<u8>, Seq<u8>>,
    req: RespRequestData,
    now_ms: i64,
) -> (RespData, Map<Seq<u8>, Seq<u8>>) {
    match resolved {
        None => (RespData::Error(spec_command_not_found_msg(req.command)), m),
        Some(id) => {
            let (res, m2) = spec_dispatch(id, m, req, now_ms);
            (
                match res {
                    Ok(v) => v,
                    Err(e) => RespData::Error(spec_message(e)),
                },
                m2,
            )
        },
    }
}

/// Serves one parsed request: resolves the command, runs its handler,
/// and turns any failure into a protocol error value, so the caller
/// always has a reply to send and the connection stays open.  The clock
/// is read once for the expiry options; every other part of the outcome
/// is independent of it.
pub fn handle_request(
    registry: &Registry,
    context: &Context,
    store: &mut Store,
    request: RespRequest,
) -> (r: RespValue)
    requires
        old(store).wf(),
    ensures
        final(store).wf(),
        exists|now_ms: i64|
            {
                let hr = #[trigger] spec_handle(
                    registry.lookup(request@.command),
                    old(store)@,
                    request@,
                    now_ms,
                );
                r@ == hr.0 && final(store)@ == hr.1
            },
{
    let now_ms = crate::context::now_millis();
    let ghost resolved = registry.lookup(request@.command);
    match registry.get_handler(&request.command) {
        Err(e) => {
            let reply = RespValue::Error(e.message());
            proof {
                let hr = spec_handle(resolved, store@, request@, now_ms);
                assert(reply@ == hr.0 && store@ == hr.1);
            }
            reply
        },
        Ok(id) => {
            let ghost m0 = store@;
            let reply = match dispatch(id, context, store, request, now_ms) {
                Ok(v) => v,
                Err(e) => RespValue::Error(e.message()),
            };
            proof {
                let hr = spec_handle(resolved, m0, request@, now_ms);
                assert(reply@ == hr.0 && store@ == hr.1);
            }
            reply
        },
    }
}

/// For every store contents, every key and every binary-safe value, a
/// plain SET stores the value and replies `OK`, and a GET of the same key
/// right after returns exactly that value as a bulk string.
pub proof fn lemma_set_then_get(m: Map<Seq<u8>, Seq<u8>>, k: Seq<u8>, s: Seq<u8>, now_ms: i64)
    ensures
        ({
            let set_req = RespRequestData {
                command: "SET".spec_bytes(),
                args: seq![
                    RespData::BulkString(Some(k)),
                    RespData::BulkString(Some(s)),
                ],
            };
            let get_req = RespRequestData {
                command: "GET".spec_bytes(),
                args: seq![RespData::BulkString(Some(k))],
            };
            let sr = spec_set(m, set_req, now_ms);
            &&& sr.0 == Ok::<RespData, ErrorData>(RespData::SimpleString("OK".spec_bytes()))
            &&& sr.1 == m.insert(k, s)
            &&& spec_get(sr.1, get_req) == Ok::<RespData, ErrorData>(
                RespData::BulkString(Some(s)),
            )
        }),
{
    let set_req = RespRequestData {
        command: "SET".spec_bytes(),
        args: seq![RespData::BulkString(Some(k)), RespData::BulkString(Some(s))],
    };
    assert(set_req.args.skip(2) =~= Seq::<RespData>::empty());
    assert(spec_set_options(set_req.args.skip(2), now_ms, spec_default_options()) == Ok::<
        SetOption,
        ErrorData,
    >(spec_default_options()));
    assert(m.insert(k, s).contains_key(k));
    assert(m.insert(k, s)[k] == s);
}

/// A GET of a key the store does not hold returns the null bulk string.
pub proof fn lemma_get_absent(m: Map<Seq<u8>, Seq<u8>>, k: Seq<u8>)
    requires
        !m.contains_key(k),
    ensures
        spec_get(
            m,
            RespRequestData {
                command: "GET".spec_bytes(),
                args: seq![RespData::BulkString(Some(k))],
            },
        ) == Ok::<RespData, ErrorData>(RespData::BulkString(None)),
{
}

/// Whether the handler named `id` writes the store.  The connection layer
/// uses this to pick the reader or the writer side of the store's lock.
pub fn handler_writes(id: HandlerId) -> (r: bool)
    ensures
        r == (id is StoreSet),
{
    match id {
        HandlerId::StoreSet => true,
        _ => false,
    }
}

/// Runs a handler that only reads the store; every handler but SET is
/// one.  Connections holding the reader side of the store's lock serve
/// these concurrently.
pub fn dispatch_read(
    id: HandlerId,
    context: &Context,
    store: &Store,
    request: RespRequest,
    now_ms: i64,
) -> (r: Result<RespValue, Error>)
    requires
        !(id is StoreSet),
        store.wf(),
    ensures
        res_view(r) == spec_dispatch(id, store@, request@, now_ms).0,
{
    match id {
        HandlerId::Ping => ping(context, request),
        HandlerId::Version => version(context, request),
        HandlerId::StoreGet => get(context, store, request),
        HandlerId::StoreSet => {
            proof {
                assert(false);
            }
            Err(Error::WrongType)
        },
    }
}

/// Renders a handler failure as the protocol error value the client
/// receives.
pub fn error_response(e: &Error) -> (r: RespValue)
    ensures
        r@ == RespData::Error(spec_message(e@)),
{
    RespValue::Error(e.message())
}

} // verus!
