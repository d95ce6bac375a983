//! Metadata-only observation of meta-tool calls: the `CallRecord` (sizes, never payloads), its
//! canonical JSON line for the audit log, the sink traits, and the bounded audit sink's
//! drop accounting.

use vstd::prelude::*;
use crate::text::{decimal, push_str, push_char, chars_of};
use crate::text;

verus! {

/// Which meta-tool was invoked.
#[derive(Debug, Clone, Copy, PartialEq, Eq, Structural)]
pub enum MetaTool {
    SearchTools,
    GetToolDetails,
    CallTool,
}

/// The snake_case token of a meta-tool.
pub open spec fn meta_tool_name(m: MetaTool) -> Seq<char> {
    match m {
        MetaTool::SearchTools => "search_tools"@,
        MetaTool::GetToolDetails => "get_tool_details"@,
        MetaTool::CallTool => "call_tool"@,
    }
}

impl MetaTool {
    /// The canonical snake_case token (the same spelling the audit line uses).
    pub fn as_str(&self) -> (r: &'static str)
        ensures
            r@ == meta_tool_name(*self),
    {
        match self {
            MetaTool::SearchTools => "search_tools",
            MetaTool::GetToolDetails => "get_tool_details",
            MetaTool::CallTool => "call_tool",
        }
    }
}

/// The outcome of a meta-tool call.
#[derive(Debug, Clone, Copy, PartialEq, Eq, Structural)]
pub enum CallOutcome {
    Success,
    Error,
    Timeout,
}

/// The snake_case token of an outcome.
pub open spec fn outcome_name(o: CallOutcome) -> Seq<char> {
    match o {
        CallOutcome::Success => "ok"@,
        CallOutcome::Error => "error"@,
        CallOutcome::Timeout => "timeout"@,
    }
}

impl CallOutcome {
    /// The canonical snake_case token.
    pub fn as_str(&self) -> (r: &'static str)
        ensures
            r@ == outcome_name(*self),
    {
        match self {
            CallOutcome::Success => "ok",
            CallOutcome::Error => "error",
            CallOutcome::Timeout => "timeout",
        }
    }
}

/// Metadata-only record of one meta-tool call: sizes of the arguments and result, never
/// their content.
#[derive(Debug, Clone)]
pub struct CallRecord {
    pub ts_unix_ms: u64,
    pub meta_tool: MetaTool,
    pub target_tool: Option<String>,
    pub upstream: Option<String>,
    pub latency_ms: u64,
    pub outcome: CallOutcome,
    pub error_kind: Option<&'static str>,
    pub arg_bytes: usize,
    pub result_bytes: usize,
}

/// The current wall-clock time as milliseconds since the Unix epoch (0 if the clock reads
/// before the epoch).
#[verifier::external_body]
fn system_now_unix_ms() -> u64 {
    match std::time::SystemTime::now().duration_since(std::time::UNIX_EPOCH) {
        Ok(d) => d.as_millis() as u64,
        Err(_) => 0,
    }
}

impl CallRecord {
    /// Current unix time in milliseconds (for `ts_unix_ms`). Nothing is promised of the
    /// value: it is the machine's clock.
    pub fn now_unix_ms() -> u64 {
        system_now_unix_ms()
    }

    /// A field-for-field copy.
    pub fn duplicate(&self) -> (r: CallRecord)
        ensures
            r == *self,
    {
        CallRecord {
            ts_unix_ms: self.ts_unix_ms,
            meta_tool: self.meta_tool,
            target_tool: clone_opt_string(&self.target_tool),
            upstream: clone_opt_string(&self.upstream),
            latency_ms: self.latency_ms,
            outcome: self.outcome,
            error_kind: self.error_kind,
            arg_bytes: self.arg_bytes,
            result_bytes: self.result_bytes,
        }
    }
}

/// A copy of an optional string.
pub fn clone_opt_string(o: &Option<String>) -> (r: Option<String>)
    ensures
        r == *o,
{
    match o {
        Some(s) => Some(s.clone()),
        None => None,
    }
}

/// One call's content payload (args + result) as already-serialized, already-truncated JSON
/// text; captured only for the dashboard's in-memory ring.
#[derive(Debug, Clone)]
pub struct CallContent {
    pub args: String,
    pub args_truncated: bool,
    pub result: String,
    pub result_truncated: bool,
}

impl CallContent {
    /// A field-for-field copy.
    pub fn duplicate(&self) -> (r: CallContent)
        ensures
            r == *self,
    {
        CallContent {
            args: self.args.clone(),
            args_truncated: self.args_truncated,
            result: self.result.clone(),
            result_truncated: self.result_truncated,
        }
    }
}

/// A sink for call observations. Implementations must not block and must not panic: an
/// observation failure never affects the call itself.
pub trait CallSink {
    fn record(&self, rec: &CallRecord);
}

/// Fan-out target for call content: receives both the metadata record and the content.
pub trait CallContentSink {
    fn record(&self, meta: &CallRecord, content: &CallContent);
}

/// A lowercase hexadecimal digit.
pub open spec fn hex_digit(d: u32) -> char {
    if d < 10 {
        (d + 48) as char
    } else {
        (d + 87) as char
    }
}

/// How `serde_json` writes one character inside a string literal: `"` and `\` behind a
/// backslash; backspace, tab, line feed, form feed and carriage return as `\b \t \n \f \r`;
/// the other control characters below U+0020 as `\u00XX` (lowercase hex); anything else as is.
pub open spec fn json_escape_char(c: char) -> Seq<char> {
    let n = c as u32;
    if c == '"' {
        seq!['\\', '"']
    } else if c == '\\' {
        seq!['\\', '\\']
    } else if n == 8 {
        seq!['\\', 'b']
    } else if n == 9 {
        seq!['\\', 't']
    } else if n == 10 {
        seq!['\\', 'n']
    } else if n == 12 {
        seq!['\\', 'f']
    } else if n == 13 {
        seq!['\\', 'r']
    } else if n < 0x20 {
        seq!['\\', 'u', '0', '0', hex_digit(n / 16), hex_digit(n % 16)]
    } else {
        seq![c]
    }
}

/// The escaped characters of `s`, in order.
pub open spec fn json_escaped(s: Seq<char>) -> Seq<char>
    decreases s.len(),
{
    if s.len() == 0 {
        Seq::empty()
    } else {
        json_escaped(s.drop_last()) + json_escape_char(s.last())
    }
}

/// What `serde_json` writes for a string value: the escaped characters between double quotes.
pub open spec fn json_quoted(s: Seq<char>) -> Seq<char> {
    seq!['"'] + json_escaped(s) + seq!['"']
}

/// The lowercase hexadecimal digit of `d`.
fn hex_char(d: u32) -> (r: char)
    requires
        d < 16,
    ensures
        r == hex_digit(d),
{
    if d == 0 { '0' } else if d == 1 { '1' } else if d == 2 { '2' } else if d == 3 { '3' } else if d == 4 {
        '4'
    } else if d == 5 { '5' } else if d == 6 { '6' } else if d == 7 { '7' } else if d == 8 { '8' } else if d
        == 9 { '9' } else if d == 10 { 'a' } else if d == 11 { 'b' } else if d == 12 { 'c' } else if d == 13 {
        'd'
    } else if d == 14 { 'e' } else { 'f' }
}

/// Appends the escaped form of `c` (see `json_escape_char`).
fn push_escaped(s: &mut String, c: char)
    ensures
        final(s)@ == old(s)@ + json_escape_char(c),
{
    let n = c as u32;
    if c == '"' || c == '\\' {
        push_char(s, '\\');
        push_char(s, c);
    } else if n == 8 || n == 9 || n == 10 || n == 12 || n == 13 {
        push_char(s, '\\');
        let e = if n == 8 { 'b' } else if n == 9 { 't' } else if n == 10 { 'n' } else if n == 12 { 'f' } else { 'r' };
        push_char(s, e);
    } else if n < 0x20 {
        push_char(s, '\\');
        push_char(s, 'u');
        push_char(s, '0');
        push_char(s, '0');
        push_char(s, hex_char(n / 16));
        push_char(s, hex_char(n % 16));
    } else {
        push_char(s, c);
    }
    proof {
        assert(final(s)@ =~= old(s)@ + json_escape_char(c));
    }
}

/// A string as a JSON string literal, as `serde_json` writes one (see `json_quoted`).
pub(crate) fn json_quote(s: &str) -> (r: String)
    ensures
        r@ == json_quoted(s@),
{
    let cs = chars_of(s);
    let mut r = String::new();
    push_char(&mut r, '"');
    let mut i: usize = 0;
    while i < cs.len()
        invariant
            i <= cs@.len(),
            cs@ == s@,
            r@ == seq!['"'] + json_escaped(s@.take(i as int)),
        decreases cs@.len() - i,
    {
        proof {
            assert(s@.take(i + 1).drop_last() =~= s@.take(i as int));
            assert(s@.take(i + 1).last() == cs@[i as int]);
        }
        push_escaped(&mut r, cs[i]);
        proof {
            assert(r@ =~= seq!['"'] + json_escaped(s@.take(i + 1)));
        }
        i = i + 1;
    }
    push_char(&mut r, '"');
    proof {
        assert(s@.take(s@.len() as int) =~= s@);
    }
    r
}

/// `,"key":` followed by the JSON form of an optional string field; nothing when absent
/// (absent optionals are skipped).
pub open spec fn opt_field(key: Seq<char>, v: Option<Seq<char>>) -> Seq<char> {
    match v {
        Some(s) => ","@ + key + json_quoted(s),
        None => Seq::empty(),
    }
}

pub open spec fn opt_view(o: Option<String>) -> Option<Seq<char>> {
    match o {
        Some(s) => Some(s@),
        None => None,
    }
}

pub open spec fn opt_str_view(o: Option<&'static str>) -> Option<Seq<char>> {
    match o {
        Some(s) => Some(s@),
        None => None,
    }
}

/// The audit JSON line of a record: the metadata fields in declaration order, compact,
/// enums as their snake_case tokens, absent optionals skipped.
pub open spec fn record_line(r: CallRecord) -> Seq<char> {
    "{\"ts_unix_ms\":"@ + decimal(r.ts_unix_ms as nat) + ",\"meta_tool\":\""@ + meta_tool_name(
        r.meta_tool,
    ) + "\""@ + opt_field("\"target_tool\":"@, opt_view(r.target_tool)) + opt_field(
        "\"upstream\":"@,
        opt_view(r.upstream),
    ) + ",\"latency_ms\":"@ + decimal(r.latency_ms as nat) + ",\"outcome\":\""@ + outcome_name(
        r.outcome,
    ) + "\""@ + opt_field("\"error_kind\":"@, opt_str_view(r.error_kind)) + ",\"arg_bytes\":"@
        + decimal(r.arg_bytes as nat) + ",\"result_bytes\":"@ + decimal(r.result_bytes as nat)
        + "}"@
}

/// Appends the decimal rendering of `n`.
pub fn push_decimal(s: &mut String, n: u64)
    ensures
        final(s)@ == old(s)@ + decimal(n as nat),
    decreases n,
{
    if n < 10 {
        let d: u8 = n as u8;
        push_char(s, (d + 48) as char);
        assert(decimal(n as nat) == seq![text::digit_char(n as nat)]);
    } else {
        push_decimal(s, n / 10);
        let d: u8 = (n % 10) as u8;
        push_char(s, (d + 48) as char);
        assert(decimal(n as nat) == decimal((n / 10) as nat).push(
            text::digit_char((n % 10) as nat),
        ));
    }
}

/// The decimal rendering of `n` as a fresh string.
pub fn decimal_string(n: u64) -> (r: String)
    ensures
        r@ == decimal(n as nat),
{
    let mut s = String::new();
    push_decimal(&mut s, n);
    assert(s@ == Seq::<char>::empty() + decimal(n as nat));
    s
}

fn push_opt_field(s: &mut String, key: &str, v: Option<&str>)
    ensures
        final(s)@ == old(s)@ + opt_field(
            key@,
            match v {
                Some(t) => Some(t@),
                None => None,
            },
        ),
{
    match v {
        Some(t) => {
            push_str(s, ",");
            push_str(s, key);
            let q = json_quote(t);
            push_str(s, q.as_str());
        },
        None => {
            assert(old(s)@ + Seq::<char>::empty() == old(s)@);
        },
    }
}

fn opt_as_str(o: &Option<String>) -> (r: Option<&str>)
    ensures
        match r {
            Some(t) => opt_view(*o) == Some(t@),
            None => opt_view(*o) == None::<Seq<char>>,
        },
{
    match o {
        Some(t) => Some(t.as_str()),
        None => None,
    }
}

/// The audit JSON line of `rec` (one line of the JSONL audit trail).
pub fn render_record(rec: &CallRecord) -> (line: String)
    ensures
        line@ == record_line(*rec),
{
    let mut s = String::new();
    push_str(&mut s, "{\"ts_unix_ms\":");
    push_decimal(&mut s, rec.ts_unix_ms);
    push_str(&mut s, ",\"meta_tool\":\"");
    push_str(&mut s, rec.meta_tool.as_str());
    push_str(&mut s, "\"");
    push_opt_field(&mut s, "\"target_tool\":", opt_as_str(&rec.target_tool));
    push_opt_field(&mut s, "\"upstream\":", opt_as_str(&rec.upstream));
    push_str(&mut s, ",\"latency_ms\":");
    push_decimal(&mut s, rec.latency_ms);
    push_str(&mut s, ",\"outcome\":\"");
    push_str(&mut s, rec.outcome.as_str());
    push_str(&mut s, "\"");
    push_opt_field(&mut s, "\"error_kind\":", rec.error_kind);
    push_str(&mut s, ",\"arg_bytes\":");
    push_decimal(&mut s, rec.arg_bytes as u64);
    push_str(&mut s, ",\"result_bytes\":");
    push_decimal(&mut s, rec.result_bytes as u64);
    push_str(&mut s, "}");
    assert(s@ =~= record_line(*rec));
    s
}


#[verifier::external_type_specification]
#[verifier::external_body]
#[verifier::reject_recursive_types(T)]
pub struct ExSyncSender<T>(std::sync::mpsc::SyncSender<T>);

#[verifier::external_type_specification]
#[verifier::external_body]
#[verifier::reject_recursive_types(T)]
pub struct ExReceiver<T>(std::sync::mpsc::Receiver<T>);

/// `std::sync::mpsc::sync_channel` for audit lines.
#[verifier::external_body]
fn line_channel(capacity: usize) -> (std::sync::mpsc::SyncSender<String>, std::sync::mpsc::Receiver<String>) {
    std::sync::mpsc::sync_channel(capacity)
}

/// `SyncSender::try_send`: true when the line was queued. Whether it is queued depends on
/// the channel's fill level and on the receiver, so nothing is promised of the answer.
#[verifier::external_body]
fn try_send_line(tx: &std::sync::mpsc::SyncSender<String>, line: String) -> bool {
    tx.try_send(line).is_ok()
}

/// `n` is a power of two.
pub open spec fn is_power_of_two(n: nat) -> bool
    decreases n,
{
    if n == 1 {
        true
    } else if n < 2 || n % 2 != 0 {
        false
    } else {
        is_power_of_two(n / 2)
    }
}

/// Is `n` a power of two.
pub fn power_of_two(n: u64) -> (r: bool)
    ensures
        r == is_power_of_two(n as nat),
{
    let mut m = n;
    while m >= 2 && m % 2 == 0
        invariant
            is_power_of_two(n as nat) == is_power_of_two(m as nat),
        decreases m,
    {
        m = m / 2;
    }
    m == 1
}

/// Counts one more failed write and reports whether this failure is one that gets logged
/// (the first, then every power of two), so a persistent failure does not flood the log.
pub fn rate_limited_write_error(errors: &mut u64) -> (log_it: bool)
    ensures
        *final(errors) == (if *old(errors) == u64::MAX { 0 } else { *old(errors) + 1 }),
        log_it == is_power_of_two(*final(errors) as nat),
{
    *errors = errors.wrapping_add(1);
    power_of_two(*errors)
}

/// Audit sink: hands each record's JSON line to a bounded channel drained by a writer thread;
/// a full or closed channel drops the line and counts it instead of blocking the call.
pub struct JsonlSink {
    tx: std::sync::mpsc::SyncSender<String>,
    dropped: u64,
    /// The room its channel was made with.
    room: Ghost<usize>,
    /// Every line handed to the channel so far, oldest first.
    offered: Ghost<Seq<Seq<char>>>,
}

/// A sink plus the receiving end of its bounded channel of `capacity` lines.
pub fn channel(capacity: usize) -> (r: (JsonlSink, std::sync::mpsc::Receiver<String>))
    ensures
        r.0.drops() == 0,
        r.0.capacity() == capacity,
        r.0.offered() == Seq::<Seq<char>>::empty(),
{
    let (tx, rx) = line_channel(capacity);
    (JsonlSink { tx, dropped: 0, room: Ghost(capacity), offered: Ghost(Seq::empty()) }, rx)
}

impl JsonlSink {
    /// The number of records dropped so far because the channel was full or closed.
    pub closed spec fn drops(&self) -> u64 {
        self.dropped
    }

    /// How many lines the channel was made to hold (the `capacity` given to `channel`).
    pub closed spec fn capacity(&self) -> usize {
        self.room@
    }

    /// The lines handed to the channel so far, oldest first, whether it took them or not.
    pub closed spec fn offered(&self) -> Seq<Seq<char>> {
        self.offered@
    }

    /// The number of records dropped so far because the channel was full or closed.
    pub fn dropped_count(&self) -> (r: u64)
        ensures
            r == self.drops(),
    {
        self.dropped
    }

    /// Accounts for one send attempt: a refused line is counted as dropped. Reports whether
    /// the drop is one that gets logged (the first, then every power of two).
    pub fn note_send(&mut self, accepted: bool) -> (log_it: bool)
        ensures
            final(self).capacity() == old(self).capacity(),
            final(self).offered() == old(self).offered(),
            accepted ==> final(self).drops() == old(self).drops() && !log_it,
            !accepted ==> final(self).drops() == (if old(self).drops() == u64::MAX { 0 } else {
                old(self).drops() + 1
            }) && log_it == is_power_of_two(final(self).drops() as nat),
    {
        if accepted {
            false
        } else {
            rate_limited_write_error(&mut self.dropped)
        }
    }

    /// Hands the audit line of `rec` (its `record_line`) to the channel without blocking; a
    /// refused line is counted as dropped. The returned flag asks the caller to log the running
    /// drop count (the first drop, then every power of two).
    pub fn record(&mut self, rec: &CallRecord) -> (log_it: bool)
        ensures
            final(self).offered() == old(self).offered().push(record_line(*rec)),
            final(self).capacity() == old(self).capacity(),
            (final(self).drops() == old(self).drops() && !log_it) || (final(self).drops() == (if old(
                self,
            ).drops() == u64::MAX { 0 } else { old(self).drops() + 1 }) && log_it == is_power_of_two(
                final(self).drops() as nat,
            )),
    {
        let line = render_record(rec);
        proof {
            self.offered@ = self.offered@.push(line@);
        }
        let accepted = try_send_line(&self.tx, line);
        self.note_send(accepted)
    }
}

/// A sink that keeps every record it is given, in order (for tests and inspection).
pub struct CaptureSink {
    records: Vec<CallRecord>,
}

impl CaptureSink {
    /// What was recorded so far, oldest first.
    pub closed spec fn captured(&self) -> Seq<CallRecord> {
        self.records@
    }

    /// An empty sink.
    pub fn new() -> (r: CaptureSink)
        ensures
            r.captured() == Seq::<CallRecord>::empty(),
    {
        CaptureSink { records: Vec::new() }
    }

    /// Keeps a copy of `rec`.
    pub fn record(&mut self, rec: &CallRecord)
        ensures
            final(self).captured() == old(self).captured().push(*rec),
    {
        self.records.push(rec.duplicate());
    }

    /// A copy of every record kept, oldest first.
    pub fn records(&self) -> (r: Vec<CallRecord>)
        ensures
            r@ == self.captured(),
    {
        let mut r: Vec<CallRecord> = Vec::new();
        let mut i: usize = 0;
        while i < self.records.len()
            invariant
                i <= self.records@.len(),
                r@ == self.records@.take(i as int),
            decreases self.records@.len() - i,
        {
            r.push(self.records[i].duplicate());
            proof {
                assert(r@ =~= self.records@.take(i + 1));
            }
            i = i + 1;
        }
        proof {
            assert(r@ =~= self.records@);
        }
        r
    }
}

impl Default for CaptureSink {
    fn default() -> (r: CaptureSink)
        ensures
            r.captured() == Seq::<CallRecord>::empty(),
    {
        CaptureSink::new()
    }
}

} // verus!
