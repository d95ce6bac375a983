//! The downstream server's decisions around one meta-tool call: which meta-tool a request
//! names and with which arguments, how its outcome is classified, and the metadata record
//! that is reported to the sinks. Speaking MCP and running the call happen at the edge.

use vstd::prelude::*;
use crate::json::{JsonValue, JsonMember};
use crate::observe::{
    CallContent, CallOutcome, CallRecord, JsonlSink, MetaTool, opt_view, json_quote, json_quoted, record_line,
    is_power_of_two,
};
use crate::metrics::{MetricsSink, observed_of};
use crate::calls::{CallRingSink, StoredCall, ring_after};
use crate::text::{str_eq, string_of, string_of_range, chars_of, push_str, digits_value, is_digit};
use crate::config::{debug_quote, debug_quoted};

verus! {

/// Why a meta-tool call failed.
#[derive(Debug)]
pub enum MetaError {
    /// No tool has this qualified name.
    ToolNotFound(String),
    /// The tool's upstream is not connected.
    UpstreamUnavailable(String),
    /// The upstream call timed out.
    Timeout,
    /// The upstream call failed with this message.
    Call(String),
}


/// The message of a meta-tool error, as shown to the client.
pub open spec fn error_message(e: MetaError) -> Seq<char> {
    match e {
        MetaError::ToolNotFound(n) => "no such tool: "@ + n@,
        MetaError::UpstreamUnavailable(u) => "upstream "@ + debug_quoted(u@) + " is unavailable"@,
        MetaError::Timeout => "upstream call timed out"@,
        MetaError::Call(m) => "upstream call failed: "@ + m@,
    }
}

impl MetaError {
    /// The error's message, as shown to the client.
    pub fn message(&self) -> (r: String)
        ensures
            r@ == error_message(*self),
    {
        match self {
            MetaError::ToolNotFound(n) => {
                let mut s = string_of("no such tool: ");
                push_str(&mut s, n.as_str());
                s
            },
            MetaError::UpstreamUnavailable(u) => {
                let mut s = string_of("upstream ");
                let q = debug_quote(u.as_str());
                push_str(&mut s, q.as_str());
                push_str(&mut s, " is unavailable");
                s
            },
            MetaError::Timeout => string_of("upstream call timed out"),
            MetaError::Call(m) => {
                let mut s = string_of("upstream call failed: ");
                push_str(&mut s, m.as_str());
                s
            },
        }
    }
}

/// The outcome and error kind a failure is recorded with.
pub open spec fn classification(e: MetaError) -> (CallOutcome, Option<Seq<char>>) {
    match e {
        MetaError::Timeout => (CallOutcome::Timeout, Some("timeout"@)),
        MetaError::Call(_) => (CallOutcome::Error, Some("upstream_call"@)),
        MetaError::ToolNotFound(_) => (CallOutcome::Error, Some("tool_not_found"@)),
        MetaError::UpstreamUnavailable(_) => (CallOutcome::Error, Some("upstream_unavailable"@)),
    }
}

pub open spec fn kind_view(k: Option<&'static str>) -> Option<Seq<char>> {
    match k {
        Some(s) => Some(s@),
        None => None,
    }
}

/// Classifies a meta-tool failure for the observation record.
pub fn classify(e: &MetaError) -> (r: (CallOutcome, Option<&'static str>))
    ensures
        (r.0, kind_view(r.1)) == classification(*e),
{
    match e {
        MetaError::Timeout => (CallOutcome::Timeout, Some("timeout")),
        MetaError::Call(_) => (CallOutcome::Error, Some("upstream_call")),
        MetaError::ToolNotFound(_) => (CallOutcome::Error, Some("tool_not_found")),
        MetaError::UpstreamUnavailable(_) => (CallOutcome::Error, Some("upstream_unavailable")),
    }
}

/// `t` has `"__"` at position `i`.
pub open spec fn separator_at(t: Seq<char>, i: int) -> bool {
    0 <= i && i + 1 < t.len() && t[i] == '_' && t[i + 1] == '_'
}

/// The upstream of a qualified tool name: the text before the first `"__"`.
pub open spec fn upstream_part(t: Seq<char>) -> Option<Seq<char>> {
    if exists|i: int| separator_at(t, i) {
        Some(t.take(choose|i: int| separator_at(t, i) && forall|j: int| 0 <= j < i ==> !separator_at(t, j)))
    } else {
        None
    }
}

/// The upstream of a qualified tool name (`{upstream}__{tool}`).
pub fn upstream_of(target: &str) -> (r: Option<String>)
    ensures
        opt_view(r) == upstream_part(target@),
{
    let cs = chars_of(target);
    let n = cs.len();
    let mut i: usize = 0;
    let last: usize = if n == 0 { 0 } else { n - 1 };
    while i < last
        invariant
            n == cs@.len(),
            last == if n == 0 { 0 } else { n - 1 },
            i <= n,
            cs@ == target@,
            forall|j: int| 0 <= j < i ==> !separator_at(target@, j),
        decreases n - i,
    {
        if cs[i] == '_' && cs[i + 1] == '_' {
            proof {
                let w = choose|k: int| separator_at(target@, k) && forall|j: int| 0 <= j < k ==> !separator_at(target@, j);
                assert(separator_at(target@, i as int));
                assert(w == i) by {
                    if w < i {
                    } else if w > i {
                    }
                }
            }
            let u = string_of_range(&cs, 0, i);
            proof {
                assert(u@ =~= target@.take(i as int));
            }
            return Some(u);
        }
        i = i + 1;
    }
    proof {
        assert forall|k: int| !separator_at(target@, k) by {
            if 0 <= k && k < i {
            }
        }
    }
    None
}

/// A meta-tool request, as the downstream server reads it.
pub enum MetaRequest {
    /// `search_tools`: the query (empty when absent) and how many tools to return.
    Search { query: String, top_k: usize },
    /// `get_tool_details`: the qualified name (empty when absent).
    Details { name: String },
    /// `call_tool` with the qualified name of the tool to call.
    Call { name: String },
    /// `call_tool` without a `name` argument.
    MissingName,
    /// Any other tool name: a protocol error, not a gateway call.
    Unknown,
}

/// The first member of `args` with key `k`.
pub open spec fn member(args: Seq<JsonMember>, k: Seq<char>) -> Option<JsonValue>
    decreases args.len(),
{
    if args.len() == 0 {
        None
    } else if args[0].key@ == k {
        Some(args[0].value)
    } else {
        member(args.subrange(1, args.len() as int), k)
    }
}

/// The string of a JSON string value.
pub open spec fn as_text(v: Option<JsonValue>) -> Option<Seq<char>> {
    match v {
        Some(JsonValue::Str(s)) => Some(s@),
        _ => None,
    }
}

/// A JSON number that is a non-negative integer within `u64` (`serde_json` renders such a
/// number as plain digits).
pub open spec fn as_unsigned(v: Option<JsonValue>) -> Option<nat> {
    match v {
        Some(JsonValue::Number(t)) => if t@.len() > 0 && (forall|i: int| 0 <= i < t@.len() ==> is_digit(#[trigger] t@[i]))
            && digits_value(t@) <= u64::MAX {
            Some(digits_value(t@))
        } else {
            None
        },
        _ => None,
    }
}

/// The request a meta-tool call makes, given its tool name and argument object.
pub open spec fn meta_request(tool: Seq<char>, args: Seq<JsonMember>, default_top_k: usize) -> MetaRequestView {
    if tool == "search_tools"@ {
        MetaRequestView::Search {
            query: match as_text(member(args, "query"@)) {
                Some(q) => q,
                None => Seq::empty(),
            },
            top_k: match as_unsigned(member(args, "top_k"@)) {
                Some(n) => (n as u64) as usize,
                None => default_top_k,
            },
        }
    } else if tool == "get_tool_details"@ {
        MetaRequestView::Details {
            name: match as_text(member(args, "name"@)) {
                Some(n) => n,
                None => Seq::empty(),
            },
        }
    } else if tool == "call_tool"@ {
        match as_text(member(args, "name"@)) {
            Some(n) => MetaRequestView::Call { name: n },
            None => MetaRequestView::MissingName,
        }
    } else {
        MetaRequestView::Unknown
    }
}

/// The mathematical content of a `MetaRequest`.
pub enum MetaRequestView {
    Search { query: Seq<char>, top_k: usize },
    Details { name: Seq<char> },
    Call { name: Seq<char> },
    MissingName,
    Unknown,
}

pub open spec fn request_view(r: MetaRequest) -> MetaRequestView {
    match r {
        MetaRequest::Search { query, top_k } => MetaRequestView::Search { query: query@, top_k },
        MetaRequest::Details { name } => MetaRequestView::Details { name: name@ },
        MetaRequest::Call { name } => MetaRequestView::Call { name: name@ },
        MetaRequest::MissingName => MetaRequestView::MissingName,
        MetaRequest::Unknown => MetaRequestView::Unknown,
    }
}

/// The position of the first member with key `k`.
pub fn member_index(args: &Vec<JsonMember>, k: &str) -> (r: Option<usize>)
    ensures
        match r {
            Some(i) => i < args@.len() && member(args@, k@) == Some(args@[i as int].value),
            None => member(args@, k@) is None,
        },
{
    let ghost v = args@;
    let mut i: usize = 0;
    assert(v.subrange(0, v.len() as int) =~= v);
    while i < args.len()
        invariant
            i <= v.len(),
            v == args@,
            member(v, k@) == member(v.subrange(i as int, v.len() as int), k@),
        decreases v.len() - i,
    {
        proof {
            let sub = v.subrange(i as int, v.len() as int);
            assert(sub.subrange(1, sub.len() as int) =~= v.subrange(i + 1, v.len() as int));
        }
        if str_eq(args[i].key.as_str(), k) {
            return Some(i);
        }
        i = i + 1;
    }
    None
}

fn text_member(args: &Vec<JsonMember>, k: &str) -> (r: Option<String>)
    ensures
        opt_view(r) == as_text(member(args@, k@)),
{
    match member_index(args, k) {
        Some(i) => match &args[i].value {
            JsonValue::Str(s) => Some(s.clone()),
            _ => None,
        },
        None => None,
    }
}

fn unsigned_member(args: &Vec<JsonMember>, k: &str) -> (r: Option<u64>)
    ensures
        r == match as_unsigned(member(args@, k@)) {
            Some(n) => Some(n as u64),
            None => None,
        },
{
    match member_index(args, k) {
        Some(i) => match &args[i].value {
            JsonValue::Number(t) => {
                let cs = chars_of(t.as_str());
                if cs.len() > 0 && cs[0] == '+' {
                    return None;
                }
                let r = crate::text::parse_u64(t.as_str());
                proof {
                    if cs@.len() > 0 {
                        assert(crate::text::unsigned_digits(t@) == t@);
                    }
                }
                r
            },
            _ => None,
        },
        None => None,
    }
}

/// Reads a meta-tool request from its tool name and argument object.
pub fn parse_meta_request(tool: &str, args: &Vec<JsonMember>, default_top_k: usize) -> (r: MetaRequest)
    ensures
        request_view(r) == meta_request(tool@, args@, default_top_k),
{
    if str_eq(tool, "search_tools") {
        let query = match text_member(args, "query") {
            Some(q) => q,
            None => String::new(),
        };
        let top_k = match unsigned_member(args, "top_k") {
            Some(n) => n as usize,
            None => default_top_k,
        };
        MetaRequest::Search { query, top_k }
    } else if str_eq(tool, "get_tool_details") {
        let name = match text_member(args, "name") {
            Some(n) => n,
            None => String::new(),
        };
        MetaRequest::Details { name }
    } else if str_eq(tool, "call_tool") {
        match text_member(args, "name") {
            Some(n) => MetaRequest::Call { name: n },
            None => MetaRequest::MissingName,
        }
    } else {
        MetaRequest::Unknown
    }
}

/// How the work a request asked for ended.
pub enum MetaStatus {
    /// It produced its result.
    Succeeded,
    /// Its result could not be serialized.
    SerializeFailed,
    /// The named tool does not exist.
    NotFound,
    /// The upstream call failed.
    Failed(MetaError),
}

/// What is recorded of one meta-tool call, besides timing and sizes.
pub struct CallObservation {
    pub meta_tool: MetaTool,
    pub target_tool: Option<String>,
    pub outcome: CallOutcome,
    pub error_kind: Option<&'static str>,
}

/// The observation of a request and how it ended; `None` for an unknown tool name, which is
/// a protocol error and is not recorded.
pub open spec fn observation(req: MetaRequestView, status: MetaStatus) -> Option<(MetaTool, Option<Seq<char>>, CallOutcome, Option<Seq<char>>)> {
    let (outcome, kind) = match status {
        MetaStatus::Succeeded => (CallOutcome::Success, None),
        MetaStatus::SerializeFailed => (CallOutcome::Error, Some("internal"@)),
        MetaStatus::NotFound => (CallOutcome::Error, Some("tool_not_found"@)),
        MetaStatus::Failed(e) => classification(e),
    };
    match req {
        MetaRequestView::Search { .. } => Some((MetaTool::SearchTools, None, outcome, kind)),
        MetaRequestView::Details { .. } => Some((MetaTool::GetToolDetails, None, outcome, kind)),
        MetaRequestView::Call { name } => Some((MetaTool::CallTool, Some(name), outcome, kind)),
        MetaRequestView::MissingName => Some(
            (MetaTool::CallTool, None, CallOutcome::Error, Some("invalid_params"@)),
        ),
        MetaRequestView::Unknown => None,
    }
}

/// What is recorded of a request and how it ended.
pub fn observe_call(req: &MetaRequest, status: &MetaStatus) -> (r: Option<CallObservation>)
    ensures
        match r {
            Some(o) => observation(request_view(*req), *status) == Some(
                (o.meta_tool, opt_view(o.target_tool), o.outcome, kind_view(o.error_kind)),
            ),
            None => observation(request_view(*req), *status) is None,
        },
{
    let (outcome, kind): (CallOutcome, Option<&'static str>) = match status {
        MetaStatus::Succeeded => (CallOutcome::Success, None),
        MetaStatus::SerializeFailed => (CallOutcome::Error, Some("internal")),
        MetaStatus::NotFound => (CallOutcome::Error, Some("tool_not_found")),
        MetaStatus::Failed(e) => classify(e),
    };
    match req {
        MetaRequest::Search { .. } => Some(
            CallObservation { meta_tool: MetaTool::SearchTools, target_tool: None, outcome, error_kind: kind },
        ),
        MetaRequest::Details { .. } => Some(
            CallObservation { meta_tool: MetaTool::GetToolDetails, target_tool: None, outcome, error_kind: kind },
        ),
        MetaRequest::Call { name } => Some(
            CallObservation {
                meta_tool: MetaTool::CallTool,
                target_tool: Some(name.clone()),
                outcome,
                error_kind: kind,
            },
        ),
        MetaRequest::MissingName => Some(
            CallObservation {
                meta_tool: MetaTool::CallTool,
                target_tool: None,
                outcome: CallOutcome::Error,
                error_kind: Some("invalid_params"),
            },
        ),
        MetaRequest::Unknown => None,
    }
}

/// One member of an arguments object as compact JSON: `"key":value`.
pub open spec fn member_entry(m: JsonMember) -> Seq<char> {
    json_quoted(m.key@) + ":"@ + m.text@
}

/// The members of an arguments object as compact JSON, separated by commas.
pub open spec fn member_entries(ms: Seq<JsonMember>) -> Seq<char>
    decreases ms.len(),
{
    if ms.len() == 0 {
        Seq::empty()
    } else if ms.len() == 1 {
        member_entry(ms[0])
    } else {
        member_entries(ms.drop_last()) + ","@ + member_entry(ms.last())
    }
}

/// A call's arguments object as compact JSON (what `serde_json::to_string` writes for it;
/// no arguments are the empty object `{}`).
pub open spec fn arguments_text(ms: Seq<JsonMember>) -> Seq<char> {
    "{"@ + member_entries(ms) + "}"@
}

/// The arguments object of a call as compact JSON.
pub fn arguments_json(args: &Vec<JsonMember>) -> (r: String)
    ensures
        r@ == arguments_text(args@),
{
    let mut body = String::new();
    let mut i: usize = 0;
    while i < args.len()
        invariant
            i <= args@.len(),
            body@ == member_entries(args@.take(i as int)),
        decreases args@.len() - i,
    {
        proof {
            assert(args@.take(i + 1).drop_last() =~= args@.take(i as int));
            assert(args@.take(i + 1).last() == args@[i as int]);
        }
        if i > 0 {
            push_str(&mut body, ",");
        }
        let q = json_quote(args[i].key.as_str());
        push_str(&mut body, q.as_str());
        push_str(&mut body, ":");
        push_str(&mut body, args[i].text.as_str());
        proof {
            if i == 0 {
                assert(body@ =~= member_entry(args@[0]));
            } else {
                assert(body@ =~= member_entries(args@.take(i as int)) + ","@ + member_entry(args@[i as int]));
            }
        }
        i = i + 1;
    }
    proof {
        assert(args@.take(args@.len() as int) =~= args@);
    }
    let mut r = string_of("{");
    push_str(&mut r, body.as_str());
    push_str(&mut r, "}");
    r
}

/// The size in bytes of a call's arguments as the record reports it: the UTF-8 length of the
/// arguments object's compact JSON.
pub fn arguments_bytes(args: &Vec<JsonMember>) -> (r: usize)
    requires
        vstd::utf8::encode_utf8(arguments_text(args@)).len() <= usize::MAX,
    ensures
        r == vstd::utf8::encode_utf8(arguments_text(args@)).len(),
{
    let text = arguments_json(args);
    text.as_str().len()
}

/// The metadata record of one call: the observation, its upstream (the part of the target
/// tool before `"__"`), the timing and the sizes (`arg_bytes` is what `arguments_bytes` gives
/// for the call's arguments).
pub fn call_record(ts_unix_ms: u64, obs: CallObservation, latency_ms: u64, arg_bytes: usize, result_bytes: usize) -> (r: CallRecord)
    ensures
        r.ts_unix_ms == ts_unix_ms,
        r.meta_tool == obs.meta_tool,
        opt_view(r.target_tool) == opt_view(obs.target_tool),
        opt_view(r.upstream) == match opt_view(obs.target_tool) {
            Some(t) => upstream_part(t),
            None => None,
        },
        r.latency_ms == latency_ms,
        r.outcome == obs.outcome,
        r.error_kind == obs.error_kind,
        r.arg_bytes == arg_bytes,
        r.result_bytes == result_bytes,
{
    let upstream = match &obs.target_tool {
        Some(t) => upstream_of(t.as_str()),
        None => None,
    };
    CallRecord {
        ts_unix_ms,
        meta_tool: obs.meta_tool,
        target_tool: obs.target_tool,
        upstream,
        latency_ms,
        outcome: obs.outcome,
        error_kind: obs.error_kind,
        arg_bytes,
        result_bytes,
    }
}

/// The upstream recorded for a call to a qualified tool `{server}__{name}` is its server, when
/// the server name holds no `"__"` and does not end in `_`.
pub proof fn lemma_upstream_of_qualified(server: Seq<char>, name: Seq<char>)
    requires
        forall|j: int| !separator_at(server, j),
        server.len() == 0 || server.last() != '_',
    ensures
        upstream_part(server + "__"@ + name) == Some(server),
{
    reveal_strlit("__");
    let sep: Seq<char> = "__"@;
    assert(sep.len() == 2 && sep[0] == '_' && sep[1] == '_');
    let t = server + sep + name;
    let k = server.len() as int;
    assert(t[k] == '_' && t[k + 1] == '_');
    assert(separator_at(t, k));
    assert forall|j: int| 0 <= j < k implies !separator_at(t, j) by {
        assert(t[j] == server[j]);
        if j + 1 < k {
            assert(t[j + 1] == server[j + 1]);
            assert(!separator_at(server, j));
        } else {
            assert(server[j] == server.last());
        }
    }
    let w = choose|i: int| separator_at(t, i) && forall|j: int| 0 <= j < i ==> !separator_at(t, j);
    assert(separator_at(t, w) && forall|j: int| 0 <= j < w ==> !separator_at(t, j));
    assert(w == k) by {
        if w < k {
            assert(!separator_at(t, w));
        } else if w > k {
            assert(!separator_at(t, k));
        }
    }
    assert(t.take(k) =~= server);
}

/// The answer a meta-tool call gives its client.
pub enum MetaReply {
    /// A protocol error for invalid parameters, with this message; the call is not recorded.
    InvalidParams(String),
    /// An internal error: the meta-tool's result could not be serialized.
    Internal,
    /// A tool result flagged as an error (not a protocol error), with this text.
    ToolError(String),
    /// The meta-tool's result, as a successful tool result.
    Success,
}

/// The text of a tool error, or the message of a protocol error.
pub open spec fn reply_text(r: MetaReply) -> Option<Seq<char>> {
    match r {
        MetaReply::InvalidParams(m) => Some(m@),
        MetaReply::ToolError(m) => Some(m@),
        _ => None,
    }
}

/// The answer to a request for tool `tool`, read as `req`, whose work ended as `status`: an
/// unknown tool name is an invalid-params protocol error `unknown tool: <name>`; a `call_tool`
/// without a name, a tool that does not exist, and a failed upstream call are tool results
/// flagged as errors (`missing required 'name'`, `no such tool: <name>`, the error's message);
/// a result that could not be serialized is an internal error; otherwise the call succeeded.
pub open spec fn reply_of(tool: Seq<char>, req: MetaRequestView, status: MetaStatus) -> (bool, bool, Option<Seq<char>>) {
    // (is a protocol error, is a tool error, text)
    match req {
        MetaRequestView::Unknown => (true, false, Some("unknown tool: "@ + tool)),
        MetaRequestView::MissingName => (false, true, Some("missing required 'name'"@)),
        _ => match status {
            MetaStatus::Succeeded => (false, false, None),
            MetaStatus::SerializeFailed => (true, false, None),
            MetaStatus::NotFound => (false, true, Some("no such tool: "@ + match req {
                MetaRequestView::Details { name } => name,
                MetaRequestView::Call { name } => name,
                _ => Seq::empty(),
            })),
            MetaStatus::Failed(e) => (false, true, Some(error_message(e))),
        },
    }
}

/// Builds the answer to a meta-tool call (see `reply_of`).
pub fn meta_reply(tool: &str, req: &MetaRequest, status: &MetaStatus) -> (r: MetaReply)
    ensures
        reply_of(tool@, request_view(*req), *status) == (
            r is InvalidParams || r is Internal,
            r is ToolError,
            reply_text(r),
        ),
        r is InvalidParams <==> request_view(*req) is Unknown,
{
    match req {
        MetaRequest::Unknown => {
            let mut m = string_of("unknown tool: ");
            push_str(&mut m, tool);
            MetaReply::InvalidParams(m)
        },
        MetaRequest::MissingName => MetaReply::ToolError(string_of("missing required 'name'")),
        _ => match status {
            MetaStatus::Succeeded => MetaReply::Success,
            MetaStatus::SerializeFailed => MetaReply::Internal,
            MetaStatus::NotFound => {
                let mut m = string_of("no such tool: ");
                match req {
                    MetaRequest::Details { name } => push_str(&mut m, name.as_str()),
                    MetaRequest::Call { name } => push_str(&mut m, name.as_str()),
                    _ => {
                        proof {
                            assert(m@ + Seq::<char>::empty() =~= m@);
                        }
                    },
                }
                MetaReply::ToolError(m)
            },
            MetaStatus::Failed(e) => MetaReply::ToolError(e.message()),
        },
    }
}

/// The sinks a meta-tool call is reported to, each when it is on: the audit log, the
/// dashboard's metrics and the dashboard's calls ring. (The log line is written at the edge.)
pub struct CallSinks {
    pub audit: Option<JsonlSink>,
    pub metrics: Option<MetricsSink>,
    pub calls: Option<CallRingSink>,
}

/// What reporting `rec` does to the audit log `a0`, giving `a1` and the flag `log_it`.
pub open spec fn audit_reported(a0: JsonlSink, a1: JsonlSink, rec: CallRecord, log_it: bool) -> bool {
    &&& a1.offered() == a0.offered().push(record_line(rec))
    &&& a1.capacity() == a0.capacity()
    &&& (a1.drops() == a0.drops() && !log_it) || (a1.drops() == (if a0.drops() == u64::MAX { 0 } else {
        (a0.drops() + 1) as u64
    }) && log_it == is_power_of_two(a1.drops() as nat))
}

/// What reporting `rec` with `content` does to the sinks `s0`, giving `s1` and the flag
/// `log_it`: every sink that is on gets it once (see `CallSinks::report`).
pub open spec fn sinks_reported(s0: CallSinks, s1: CallSinks, rec: CallRecord, content: CallContent, log_it: bool) -> bool {
    &&& match (s0.audit, s1.audit) {
        (Some(a0), Some(a1)) => audit_reported(a0, a1, rec, log_it),
        (None, None) => !log_it,
        _ => false,
    }
    &&& match (s0.metrics, s1.metrics) {
        (Some(m0), Some(m1)) => m1.wf() && m1.history() == if m0.history().len() < u64::MAX {
            m0.history().push(observed_of(rec))
        } else {
            m0.history()
        },
        (None, None) => true,
        _ => false,
    }
    &&& match (s0.calls, s1.calls) {
        (Some(c0), Some(c1)) => c1.capacity() == c0.capacity() && c1.next_seq() == (if c0.next_seq()
            == u64::MAX { 0 } else { (c0.next_seq() + 1) as u64 }) && c1.entries() == ring_after(
            c0.entries(),
            c0.capacity(),
            StoredCall { seq: c0.next_seq(), record: rec, content },
        ) && c1.history() == c0.history().push(StoredCall { seq: c0.next_seq(), record: rec, content }),
        (None, None) => true,
        _ => false,
    }
}

impl CallSinks {
    /// Reports one call to every sink that is on, once each: its record to the audit log and
    /// to the metrics (which stop counting at `u64::MAX` calls), its record with its content
    /// to the calls ring. Answers whether the audit log asks for its drop count to be logged.
    pub fn report(&mut self, rec: &CallRecord, content: &CallContent) -> (log_it: bool)
        requires
            old(self).metrics matches Some(m) ==> m.wf(),
        ensures
            sinks_reported(*old(self), *final(self), *rec, *content, log_it),
    {
        let log_it = match self.audit.take() {
            Some(mut a) => {
                let l = a.record(rec);
                self.audit = Some(a);
                l
            },
            None => false,
        };
        match self.metrics.take() {
            Some(mut m) => {
                if m.total_calls() < u64::MAX {
                    m.record(rec);
                }
                self.metrics = Some(m);
            },
            None => {},
        }
        match self.calls.take() {
            Some(mut c) => {
                c.record(rec, content);
                self.calls = Some(c);
            },
            None => {},
        }
        log_it
    }
}

/// Ends one meta-tool call: `req` is what `parse_meta_request` read from `tool` and `args`,
/// and `status` how its work ended (`result_bytes` is the size of its serialized result).
/// Answers the reply (see `meta_reply`); unless the tool name is unknown, which is not
/// recorded, it also reports one record of the call to every sink that is on: its meta-tool,
/// its target and that target's upstream, its outcome, the size of its arguments as compact
/// JSON, and the size of its result (none for an internal error). Answers the record and
/// whether the audit log asks for its drop count to be logged.
pub fn finish_call(
    sinks: &mut CallSinks,
    tool: &str,
    args: &Vec<JsonMember>,
    req: &MetaRequest,
    status: &MetaStatus,
    ts_unix_ms: u64,
    latency_ms: u64,
    result_bytes: usize,
    content: &CallContent,
) -> (r: (MetaReply, Option<CallRecord>, bool))
    requires
        old(sinks).metrics matches Some(m) ==> m.wf(),
        vstd::utf8::encode_utf8(arguments_text(args@)).len() <= usize::MAX,
    ensures
        reply_of(tool@, request_view(*req), *status) == (
            r.0 is InvalidParams || r.0 is Internal,
            r.0 is ToolError,
            reply_text(r.0),
        ),
        match observation(request_view(*req), *status) {
            None => r.1 is None && !r.2 && *final(sinks) == *old(sinks),
            Some((m, t, o, k)) => r.1 matches Some(rec) && {
                &&& rec.ts_unix_ms == ts_unix_ms
                &&& rec.meta_tool == m
                &&& opt_view(rec.target_tool) == t
                &&& opt_view(rec.upstream) == match t {
                    Some(x) => upstream_part(x),
                    None => None,
                }
                &&& rec.latency_ms == latency_ms
                &&& rec.outcome == o
                &&& kind_view(rec.error_kind) == k
                &&& rec.arg_bytes == vstd::utf8::encode_utf8(arguments_text(args@)).len()
                &&& rec.result_bytes == (if r.0 is Internal { 0 } else { result_bytes })
                &&& sinks_reported(*old(sinks), *final(sinks), rec, *content, r.2)
            },
        },
{
    let reply = meta_reply(tool, req, status);
    match observe_call(req, status) {
        None => (reply, None, false),
        Some(obs) => {
            let bytes = match &reply {
                MetaReply::Internal => 0,
                _ => result_bytes,
            };
            let rec = call_record(ts_unix_ms, obs, latency_ms, arguments_bytes(args), bytes);
            let log_it = sinks.report(&rec, content);
            (reply, Some(rec), log_it)
        },
    }
}

/// One meta-tool as offered to clients: its name, its description, and its input schema as
/// compact JSON.
pub struct MetaToolDef {
    pub name: String,
    pub description: String,
    pub input_schema: String,
}

/// The three meta-tools offered to clients, the same whatever the upstreams: `search_tools`,
/// `get_tool_details` and `call_tool`, each with its description and input schema.
pub fn meta_tools() -> (r: Vec<MetaToolDef>)
    ensures
        r@.len() == 3,
        r@[0].name@ == "search_tools"@,
        r@[0].description@ == "Search aggregated upstream tools by natural-language query; returns candidate tool summaries (qualified name + description)."@,
        r@[0].input_schema@ == "{\"properties\":{\"query\":{\"description\":\"Natural-language query.\",\"type\":\"string\"},\"top_k\":{\"description\":\"Max results to return.\",\"type\":\"integer\"}},\"required\":[\"query\"],\"type\":\"object\"}"@,
        r@[1].name@ == "get_tool_details"@,
        r@[1].description@ == "Get the full definition (description + input schema) of one tool by its qualified name (e.g. \"github__create_issue\")."@,
        r@[1].input_schema@ == "{\"properties\":{\"name\":{\"description\":\"Qualified tool name.\",\"type\":\"string\"}},\"required\":[\"name\"],\"type\":\"object\"}"@,
        r@[2].name@ == "call_tool"@,
        r@[2].description@ == "Execute one upstream tool by its qualified name, forwarding `arguments`."@,
        r@[2].input_schema@ == "{\"properties\":{\"arguments\":{\"description\":\"Tool arguments.\",\"type\":\"object\"},\"name\":{\"description\":\"Qualified tool name.\",\"type\":\"string\"}},\"required\":[\"name\"],\"type\":\"object\"}"@,
{
    let mut r: Vec<MetaToolDef> = Vec::new();
    r.push(MetaToolDef {
        name: string_of("search_tools"),
        description: string_of("Search aggregated upstream tools by natural-language query; returns candidate tool summaries (qualified name + description)."),
        input_schema: string_of("{\"properties\":{\"query\":{\"description\":\"Natural-language query.\",\"type\":\"string\"},\"top_k\":{\"description\":\"Max results to return.\",\"type\":\"integer\"}},\"required\":[\"query\"],\"type\":\"object\"}"),
    });
    r.push(MetaToolDef {
        name: string_of("get_tool_details"),
        description: string_of("Get the full definition (description + input schema) of one tool by its qualified name (e.g. \"github__create_issue\")."),
        input_schema: string_of("{\"properties\":{\"name\":{\"description\":\"Qualified tool name.\",\"type\":\"string\"}},\"required\":[\"name\"],\"type\":\"object\"}"),
    });
    r.push(MetaToolDef {
        name: string_of("call_tool"),
        description: string_of("Execute one upstream tool by its qualified name, forwarding `arguments`."),
        input_schema: string_of("{\"properties\":{\"arguments\":{\"description\":\"Tool arguments.\",\"type\":\"object\"},\"name\":{\"description\":\"Qualified tool name.\",\"type\":\"string\"}},\"required\":[\"name\"],\"type\":\"object\"}"),
    });
    r
}

} // verus!
