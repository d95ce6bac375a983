//! The Calls drill-down: one owned item shape for live and replayed calls, the filter that
//! both sources share, and the bounded live ring (newest-first on read).

use vstd::prelude::*;
use std::collections::VecDeque;
use crate::text::{decimal, is_substring, lowercase, to_lowercase, chars_of, seq_contains, string_of, str_eq};
use crate::json::{json_document, has_key_value, args_key_value_matches, JsonValue, JsonMember, member_value_text, lemma_member_match_ignores_case};
use crate::observe::{
    CallRecord, CallContent, meta_tool_name, outcome_name, opt_view, opt_str_view, clone_opt_string,
    decimal_string,
};

verus! {

/// One call as exposed by the API. `id` is the decimal ring sequence number for live calls
/// and `h{ts}-{n}` for calls replayed from the audit log.
#[derive(Debug, Clone, PartialEq)]
pub struct CallItem {
    pub id: String,
    pub ts_unix_ms: u64,
    pub meta_tool: String,
    pub target_tool: Option<String>,
    pub upstream: Option<String>,
    pub latency_ms: u64,
    pub outcome: String,
    pub error_kind: Option<String>,
    pub arg_bytes: usize,
    pub result_bytes: usize,
    pub args: Option<String>,
    pub args_truncated: bool,
    pub result: Option<String>,
    pub result_truncated: bool,
}

impl CallItem {
    /// A field-for-field copy.
    pub fn duplicate(&self) -> (r: CallItem)
        ensures
            r@ == self@,
    {
        CallItem {
            id: self.id.clone(),
            ts_unix_ms: self.ts_unix_ms,
            meta_tool: self.meta_tool.clone(),
            target_tool: clone_opt_string(&self.target_tool),
            upstream: clone_opt_string(&self.upstream),
            latency_ms: self.latency_ms,
            outcome: self.outcome.clone(),
            error_kind: clone_opt_string(&self.error_kind),
            arg_bytes: self.arg_bytes,
            result_bytes: self.result_bytes,
            args: clone_opt_string(&self.args),
            args_truncated: self.args_truncated,
            result: clone_opt_string(&self.result),
            result_truncated: self.result_truncated,
        }
    }
}

/// The mathematical content of a `CallItem`.
pub struct ItemView {
    pub id: Seq<char>,
    pub ts_unix_ms: u64,
    pub meta_tool: Seq<char>,
    pub target_tool: Option<Seq<char>>,
    pub upstream: Option<Seq<char>>,
    pub latency_ms: u64,
    pub outcome: Seq<char>,
    pub error_kind: Option<Seq<char>>,
    pub arg_bytes: usize,
    pub result_bytes: usize,
    pub args: Option<Seq<char>>,
    pub args_truncated: bool,
    pub result: Option<Seq<char>>,
    pub result_truncated: bool,
}

impl View for CallItem {
    type V = ItemView;

    open spec fn view(&self) -> ItemView {
        ItemView {
            id: self.id@,
            ts_unix_ms: self.ts_unix_ms,
            meta_tool: self.meta_tool@,
            target_tool: opt_view(self.target_tool),
            upstream: opt_view(self.upstream),
            latency_ms: self.latency_ms,
            outcome: self.outcome@,
            error_kind: opt_view(self.error_kind),
            arg_bytes: self.arg_bytes,
            result_bytes: self.result_bytes,
            args: opt_view(self.args),
            args_truncated: self.args_truncated,
            result: opt_view(self.result),
            result_truncated: self.result_truncated,
        }
    }
}

/// Filter for the calls list, applied alike to live and replayed items. Every `None` field
/// matches everything; `since_ms` and `until_ms` bound a closed time window.
#[derive(Debug, Clone)]
pub struct CallFilter {
    pub meta_tool: Option<String>,
    pub upstream: Option<String>,
    pub target_tool: Option<String>,
    pub outcome: Option<String>,
    pub since_ms: Option<u64>,
    pub until_ms: Option<u64>,
    pub q: Option<String>,
    pub arg_key: Option<String>,
    pub arg_val: Option<String>,
}

/// The mathematical content of a `CallFilter`.
pub struct FilterView {
    pub meta_tool: Option<Seq<char>>,
    pub upstream: Option<Seq<char>>,
    pub target_tool: Option<Seq<char>>,
    pub outcome: Option<Seq<char>>,
    pub since_ms: Option<u64>,
    pub until_ms: Option<u64>,
    pub q: Option<Seq<char>>,
    pub arg_key: Option<Seq<char>>,
    pub arg_val: Option<Seq<char>>,
}

impl View for CallFilter {
    type V = FilterView;

    open spec fn view(&self) -> FilterView {
        FilterView {
            meta_tool: opt_view(self.meta_tool),
            upstream: opt_view(self.upstream),
            target_tool: opt_view(self.target_tool),
            outcome: opt_view(self.outcome),
            since_ms: self.since_ms,
            until_ms: self.until_ms,
            q: opt_view(self.q),
            arg_key: opt_view(self.arg_key),
            arg_val: opt_view(self.arg_val),
        }
    }
}

impl Default for CallFilter {
    fn default() -> (r: CallFilter)
        ensures
            r@ == match_all(),
    {
        CallFilter {
            meta_tool: None,
            upstream: None,
            target_tool: None,
            outcome: None,
            since_ms: None,
            until_ms: None,
            q: None,
            arg_key: None,
            arg_val: None,
        }
    }
}

/// The filter with every dimension unset.
pub open spec fn match_all() -> FilterView {
    FilterView {
        meta_tool: None,
        upstream: None,
        target_tool: None,
        outcome: None,
        since_ms: None,
        until_ms: None,
        q: None,
        arg_key: None,
        arg_val: None,
    }
}

/// An exact-match dimension: unset, or the item carries exactly that value.
pub open spec fn opt_dim(want: Option<Seq<char>>, have: Option<Seq<char>>) -> bool {
    match want {
        None => true,
        Some(w) => have == Some(w),
    }
}

/// Case-insensitive containment of `needle` in `args` or, when present, in `result`.
pub open spec fn content_has(args: Seq<char>, result: Option<Seq<char>>, needle: Seq<char>) -> bool {
    is_substring(lowercase(args), lowercase(needle)) || match result {
        Some(r) => is_substring(lowercase(r), lowercase(needle)),
        None => false,
    }
}

/// The content filters (free text `q`; the `arg_key`/`arg_val` pair, active only when both
/// are set) against an item's content.
pub open spec fn content_ok(f: FilterView, args: Seq<char>, result: Option<Seq<char>>) -> bool {
    &&& (f.q matches Some(q) ==> content_has(args, result, q))
    &&& (f.arg_key matches Some(k) ==> f.arg_val matches Some(v) ==> match json_document(args) {
        Some(doc) => has_key_value(doc, k, lowercase(v)),
        None => false,
    })
}

/// The item passes every set dimension of the filter. Content filters apply only to items
/// that carry content; an item without `args` is never excluded by them.
pub open spec fn filter_holds(f: FilterView, c: ItemView) -> bool {
    &&& (f.meta_tool matches Some(m) ==> c.meta_tool == m)
    &&& opt_dim(f.upstream, c.upstream)
    &&& opt_dim(f.target_tool, c.target_tool)
    &&& (f.outcome matches Some(o) ==> c.outcome == o)
    &&& (f.since_ms matches Some(s) ==> c.ts_unix_ms >= s)
    &&& (f.until_ms matches Some(u) ==> c.ts_unix_ms <= u)
    &&& (c.args matches Some(a) ==> content_ok(f, a, c.result))
}

/// Case-insensitive substring of `needle` over `args` and the optional `result`.
pub fn content_contains(args: &str, result: Option<&str>, needle: &str) -> (r: bool)
    ensures
        r == content_has(
            args@,
            match result {
                Some(x) => Some(x@),
                None => None,
            },
            needle@,
        ),
{
    let n = to_lowercase(needle);
    let nv = chars_of(n.as_str());
    let a = to_lowercase(args);
    let av = chars_of(a.as_str());
    if seq_contains(&av, &nv) {
        return true;
    }
    match result {
        Some(x) => {
            let l = to_lowercase(x);
            let lv = chars_of(l.as_str());
            seq_contains(&lv, &nv)
        },
        None => false,
    }
}

/// Does the optional text equal `want`.
fn opt_text_is(have: &Option<String>, want: &String) -> (r: bool)
    ensures
        r == (opt_view(*have) == Some(want@)),
{
    match have {
        Some(h) => str_eq(h.as_str(), want.as_str()),
        None => false,
    }
}

impl CallFilter {
    /// Whether the item passes this filter.
    pub fn matches(&self, c: &CallItem) -> (r: bool)
        ensures
            r == filter_holds(self@, c@),
    {
        if let Some(m) = &self.meta_tool {
            if !str_eq(c.meta_tool.as_str(), m.as_str()) {
                return false;
            }
        }
        if let Some(u) = &self.upstream {
            if !opt_text_is(&c.upstream, u) {
                return false;
            }
        }
        if let Some(t) = &self.target_tool {
            if !opt_text_is(&c.target_tool, t) {
                return false;
            }
        }
        if let Some(o) = &self.outcome {
            if !str_eq(c.outcome.as_str(), o.as_str()) {
                return false;
            }
        }
        if let Some(s) = self.since_ms {
            if c.ts_unix_ms < s {
                return false;
            }
        }
        if let Some(u) = self.until_ms {
            if c.ts_unix_ms > u {
                return false;
            }
        }
        if let Some(args) = &c.args {
            if let Some(q) = &self.q {
                let res = match &c.result {
                    Some(x) => Some(x.as_str()),
                    None => None,
                };
                if !content_contains(args.as_str(), res, q.as_str()) {
                    return false;
                }
            }
            if let Some(k) = &self.arg_key {
                if let Some(v) = &self.arg_val {
                    if !args_key_value_matches(args.as_str(), k.as_str(), v.as_str()) {
                        return false;
                    }
                }
            }
        }
        true
    }

    /// A content filter is active: free text, or a complete key/value pair.
    pub fn wants_content(&self) -> (r: bool)
        ensures
            r == wants_content(self@),
    {
        self.q.is_some() || (self.arg_key.is_some() && self.arg_val.is_some())
    }
}

/// A content filter is set.
pub open spec fn wants_content(f: FilterView) -> bool {
    f.q is Some || (f.arg_key is Some && f.arg_val is Some)
}


/// A ring entry: a record, its content, and the stable in-process sequence number that is
/// its live id.
pub struct StoredCall {
    pub seq: u64,
    pub record: CallRecord,
    pub content: CallContent,
}

/// The item a stored call is exposed as, with or without its content.
pub open spec fn stored_view(s: StoredCall, with_content: bool) -> ItemView {
    ItemView {
        id: decimal(s.seq as nat),
        ts_unix_ms: s.record.ts_unix_ms,
        meta_tool: meta_tool_name(s.record.meta_tool),
        target_tool: opt_view(s.record.target_tool),
        upstream: opt_view(s.record.upstream),
        latency_ms: s.record.latency_ms,
        outcome: outcome_name(s.record.outcome),
        error_kind: opt_str_view(s.record.error_kind),
        arg_bytes: s.record.arg_bytes,
        result_bytes: s.record.result_bytes,
        args: if with_content { Some(s.content.args@) } else { None },
        args_truncated: with_content && s.content.args_truncated,
        result: if with_content { Some(s.content.result@) } else { None },
        result_truncated: with_content && s.content.result_truncated,
    }
}

impl StoredCall {
    /// The API item for this entry; content (args/result) is included only on request.
    pub fn to_item(&self, with_content: bool) -> (r: CallItem)
        ensures
            r@ == stored_view(*self, with_content),
    {
        let rec = &self.record;
        let (args, args_truncated, result, result_truncated) = if with_content {
            (
                Some(self.content.args.clone()),
                self.content.args_truncated,
                Some(self.content.result.clone()),
                self.content.result_truncated,
            )
        } else {
            (None, false, None, false)
        };
        let error_kind = match rec.error_kind {
            Some(k) => Some(string_of(k)),
            None => None,
        };
        CallItem {
            id: decimal_string(self.seq),
            ts_unix_ms: rec.ts_unix_ms,
            meta_tool: string_of(rec.meta_tool.as_str()),
            target_tool: clone_opt_string(&rec.target_tool),
            upstream: clone_opt_string(&rec.upstream),
            latency_ms: rec.latency_ms,
            outcome: string_of(rec.outcome.as_str()),
            error_kind,
            arg_bytes: rec.arg_bytes,
            result_bytes: rec.result_bytes,
            args,
            args_truncated,
            result,
            result_truncated,
        }
    }
}

/// The items of `entries` (oldest first) that pass `f` when judged with their content,
/// newest first, each exposed without content.
pub open spec fn newest_matches(entries: Seq<StoredCall>, f: FilterView) -> Seq<ItemView>
    decreases entries.len(),
{
    if entries.len() == 0 {
        Seq::empty()
    } else {
        let rest = newest_matches(entries.subrange(1, entries.len() as int), f);
        if filter_holds(f, stored_view(entries[0], true)) {
            rest.push(stored_view(entries[0], false))
        } else {
            rest
        }
    }
}

/// The page of `items` after skipping `offset` and keeping at most `limit`.
pub open spec fn page_of<T>(items: Seq<T>, offset: nat, limit: nat) -> Seq<T> {
    let lo = if offset <= items.len() { offset as int } else { items.len() as int };
    let hi = if offset + limit <= items.len() { (offset + limit) as int } else { items.len() as int };
    items.subrange(lo, hi)
}

/// The entries of a ring of capacity `cap` after storing `s`: the oldest is evicted when the
/// ring is full.
pub open spec fn ring_after<T>(entries: Seq<T>, cap: nat, s: T) -> Seq<T> {
    (if entries.len() == cap {
        entries.subrange(1, entries.len() as int)
    } else {
        entries
    }).push(s)
}

/// The entries carry consecutive sequence numbers, in ring order, ending just before `next`.
pub open spec fn consecutive(entries: Seq<StoredCall>, next: u64) -> bool {
    &&& entries.len() <= next
    &&& forall|i: int| 0 <= i < entries.len() ==> (#[trigger] entries[i]).seq == next - entries.len() + i
}

/// Bounded in-memory ring of recent calls with their content (newest-first on read). When
/// full, recording evicts the oldest entry. Each record gets the next sequence number.
pub struct CallRingSink {
    cap: usize,
    ring: VecDeque<StoredCall>,
    next_seq: u64,
    recorded: Ghost<Seq<StoredCall>>,
}

impl CallRingSink {
    #[verifier::type_invariant]
    spec fn bounded(&self) -> bool {
        &&& 1 <= self.cap && self.ring@.len() <= self.cap
        &&& self.ring@ == ring_of(self.cap as nat, self.recorded@)
        &&& self.recorded@.len() <= u64::MAX ==> self.next_seq == self.recorded@.len()
            && forall|i: int| 0 <= i < self.recorded@.len() ==> (#[trigger] self.recorded@[i]).seq == i
    }

    /// Every call recorded since the ring was made, oldest first, each with its sequence
    /// number.
    pub closed spec fn history(&self) -> Seq<StoredCall> {
        self.recorded@
    }

    /// The resident entries, oldest first.
    pub closed spec fn entries(&self) -> Seq<StoredCall> {
        self.ring@
    }

    /// The most entries the ring holds.
    pub closed spec fn capacity(&self) -> nat {
        self.cap as nat
    }

    /// The sequence number the next record will get.
    pub closed spec fn next_seq(&self) -> u64 {
        self.next_seq
    }

    /// An empty ring holding at most `max(cap, 1)` entries.
    pub fn new(cap: usize) -> (r: CallRingSink)
        ensures
            r.entries() == Seq::<StoredCall>::empty(),
            r.history() == Seq::<StoredCall>::empty(),
            r.capacity() == (if cap == 0 { 1 } else { cap as nat }),
            r.next_seq() == 0,
    {
        let cap = if cap == 0 { 1 } else { cap };
        let reserve = if cap < 1024 { cap } else { 1024 };
        CallRingSink { cap, ring: VecDeque::with_capacity(reserve), next_seq: 0, recorded: Ghost(Seq::empty()) }
    }

    /// Stores one call under the next sequence number, evicting the oldest entry when full.
    pub fn record(&mut self, meta: &CallRecord, content: &CallContent)
        ensures
            final(self).capacity() == old(self).capacity(),
            final(self).entries().len() <= final(self).capacity(),
            final(self).next_seq() == (if old(self).next_seq() == u64::MAX { 0 } else {
                (old(self).next_seq() + 1) as u64
            }),
            final(self).entries() == ring_after(
                old(self).entries(),
                old(self).capacity(),
                StoredCall { seq: old(self).next_seq(), record: *meta, content: *content },
            ),
            final(self).history() == old(self).history().push(
                StoredCall { seq: old(self).next_seq(), record: *meta, content: *content },
            ),
    {
        proof {
            use_type_invariant(&*self);
        }
        let mut cur = CallRingSink::new(1);
        std::mem::swap(self, &mut cur);
        proof {
            use_type_invariant(&cur);
        }
        let CallRingSink { cap, mut ring, next_seq, recorded } = cur;
        let stored = StoredCall { seq: next_seq, record: meta.duplicate(), content: content.duplicate() };
        let ghost h = recorded@.push(stored);
        if ring.len() == cap {
            let _ = ring.pop_front();
        }
        ring.push_back(stored);
        proof {
            assert(h.drop_last() =~= recorded@);
            assert(ring@ =~= ring_of(cap as nat, h));
        }
        *self = CallRingSink { cap, ring, next_seq: next_seq.wrapping_add(1), recorded: Ghost(h) };
    }

    /// Newest-first page of the items passing `filter`, and the count of all passing items
    /// (independent of `limit` and `offset`). Listed items never carry content.
    pub fn query(&self, filter: &CallFilter, limit: usize, offset: usize) -> (r: (Vec<CallItem>, usize))
        ensures
            r.0@.map_values(|c: CallItem| c@) == page_of(
                newest_matches(self.entries(), filter@),
                offset as nat,
                limit as nat,
            ),
            r.1 == newest_matches(self.entries(), filter@).len(),
            self.entries() == ring_of(self.capacity(), self.history()),
            filter@ == match_all() ==> r.1 == min_nat(self.history().len(), self.capacity()),
    {
        proof {
            use_type_invariant(self);
            lemma_ring_keeps_last(self.cap as nat, self.recorded@);
            lemma_newest_all(self.ring@);
        }
        let want_content = filter.wants_content();
        let n = self.ring.len();
        let mut matched: Vec<CallItem> = Vec::new();
        let mut i: usize = n;
        assert(self.ring@.subrange(n as int, n as int) == Seq::<StoredCall>::empty());
        while i > 0
            invariant
                i <= n,
                n == self.ring@.len(),
                want_content == wants_content(filter@),
                matched@.map_values(|c: CallItem| c@) == newest_matches(
                    self.ring@.subrange(i as int, n as int),
                    filter@,
                ),
            decreases i,
        {
            i = i - 1;
            let s = &self.ring[i];
            let light = s.to_item(false);
            let keep = if !filter.matches(&light) {
                false
            } else if !want_content {
                true
            } else {
                let full = s.to_item(true);
                filter.matches(&full)
            };
            proof {
                let sub = self.ring@.subrange(i as int, n as int);
                assert(sub.subrange(1, sub.len() as int) == self.ring@.subrange(i + 1, n as int));
                assert(sub[0] == self.ring@[i as int]);
            }
            if keep {
                let ghost before = matched@;
                matched.push(light);
                assert(matched@.map_values(|c: CallItem| c@) =~= before.map_values(
                    |c: CallItem| c@,
                ).push(light@));
            }
        }
        assert(self.ring@.subrange(0, n as int) =~= self.ring@);
        let ghost all = newest_matches(self.ring@, filter@);
        assert(matched@.map_values(|c: CallItem| c@) == all);
        let total = matched.len();
        let lo = if offset <= total { offset } else { total };
        let hi = if limit <= total - lo { lo + limit } else { total };
        let mut page: Vec<CallItem> = Vec::new();
        let mut j = lo;
        while j < hi
            invariant
                lo <= j <= hi <= total,
                total == matched@.len(),
                matched@.map_values(|c: CallItem| c@) == all,
                lo as nat == (if offset <= total { offset as nat } else { total as nat }),
                hi as nat == (if offset + limit <= total { (offset + limit) as nat } else { total as nat }),
                page@.map_values(|c: CallItem| c@) == matched@.map_values(|c: CallItem| c@).subrange(
                    lo as int,
                    j as int,
                ),
            decreases hi - j,
        {
            let ghost before = page@;
            page.push(matched[j].duplicate());
            assert(page@.map_values(|c: CallItem| c@) =~= before.map_values(|c: CallItem| c@).push(
                matched@[j as int]@,
            ));
            assert(matched@.map_values(|c: CallItem| c@).subrange(lo as int, j + 1) =~= matched@.map_values(
                |c: CallItem| c@,
            ).subrange(lo as int, j as int).push(matched@[j as int]@));
            j = j + 1;
        }
        (page, total)
    }

    /// Resolves a live id: the oldest resident entry with sequence number `seq`, with its
    /// content, or `None` when no resident entry has it (evicted or never recorded).
    pub fn get(&self, seq: u64) -> (r: Option<CallItem>)
        ensures
            match r {
                Some(it) => exists|i: int|
                    0 <= i < self.entries().len() && #[trigger] self.entries()[i].seq == seq && (
                    forall|j: int| 0 <= j < i ==> self.entries()[j].seq != seq) && it@
                        == stored_view(self.entries()[i], true),
                None => forall|i: int|
                    0 <= i < self.entries().len() ==> #[trigger] self.entries()[i].seq != seq,
            },
            self.history().len() <= u64::MAX ==> ({
                let n = self.history().len();
                let lo = n - min_nat(n, self.capacity());
                match r {
                    Some(it) => lo <= seq < n && it@ == stored_view(self.history()[seq as int], true),
                    None => !(lo <= seq < n),
                }
            }),
    {
        proof {
            use_type_invariant(self);
            lemma_ring_keeps_last(self.cap as nat, self.recorded@);
            let h = self.recorded@;
            let n = h.len();
            let lo = n - min_nat(n, self.cap as nat);
            if n <= u64::MAX {
                assert forall|i: int| 0 <= i < self.ring@.len() implies #[trigger] self.ring@[i] == h[lo + i]
                    && self.ring@[i].seq == lo + i by {
                    assert(self.ring@[i] == h.subrange(lo, n as int)[i]);
                }
                if lo <= seq < n {
                    assert(self.ring@[seq - lo].seq == seq);
                }
            }
        }
        let n = self.ring.len();
        let mut i: usize = 0;
        while i < n
            invariant
                i <= n,
                n == self.ring@.len(),
                forall|j: int| 0 <= j < i ==> #[trigger] self.ring@[j].seq != seq,
            decreases n - i,
        {
            if self.ring[i].seq == seq {
                let it = self.ring[i].to_item(true);
                assert(self.ring@[i as int].seq == seq);
                proof {
                    use_type_invariant(self);
                    lemma_ring_keeps_last(self.cap as nat, self.recorded@);
                    let h = self.recorded@;
                    let lo = h.len() - min_nat(h.len(), self.cap as nat);
                    assert(self.ring@[i as int] == h.subrange(lo, h.len() as int)[i as int]);
                }
                return Some(it);
            }
            i = i + 1;
        }
        None
    }
}

/// The default filter accepts every item.
pub proof fn lemma_match_all_accepts(c: ItemView)
    ensures
        filter_holds(match_all(), c),
{
}

/// No dimension is set in both filters (`arg_key` and `arg_val` count as one dimension).
pub open spec fn disjoint_filters(f: FilterView, g: FilterView) -> bool {
    &&& (f.meta_tool is None || g.meta_tool is None)
    &&& (f.upstream is None || g.upstream is None)
    &&& (f.target_tool is None || g.target_tool is None)
    &&& (f.outcome is None || g.outcome is None)
    &&& (f.since_ms is None || g.since_ms is None)
    &&& (f.until_ms is None || g.until_ms is None)
    &&& (f.q is None || g.q is None)
    &&& ((f.arg_key is None && f.arg_val is None) || (g.arg_key is None && g.arg_val is None))
}

/// Each dimension from `f` where it is set, otherwise from `g`.
pub open spec fn combined(f: FilterView, g: FilterView) -> FilterView {
    FilterView {
        meta_tool: if f.meta_tool is Some { f.meta_tool } else { g.meta_tool },
        upstream: if f.upstream is Some { f.upstream } else { g.upstream },
        target_tool: if f.target_tool is Some { f.target_tool } else { g.target_tool },
        outcome: if f.outcome is Some { f.outcome } else { g.outcome },
        since_ms: if f.since_ms is Some { f.since_ms } else { g.since_ms },
        until_ms: if f.until_ms is Some { f.until_ms } else { g.until_ms },
        q: if f.q is Some { f.q } else { g.q },
        arg_key: if f.arg_key is Some || f.arg_val is Some { f.arg_key } else { g.arg_key },
        arg_val: if f.arg_key is Some || f.arg_val is Some { f.arg_val } else { g.arg_val },
    }
}

/// Filter dimensions are ANDed: a filter setting the dimensions of two disjoint filters
/// accepts exactly the items both accept.
pub proof fn lemma_filters_are_anded(f: FilterView, g: FilterView, c: ItemView)
    requires
        disjoint_filters(f, g),
    ensures
        filter_holds(combined(f, g), c) == (filter_holds(f, c) && filter_holds(g, c)),
{
}

/// Recording keeps the ring in sequence order: while the counter has not wrapped, the resident
/// entries carry consecutive sequence numbers in ring order (a fresh ring starts so, with no
/// entries and counter 0), so newest-first reads come in descending sequence order and no two
/// resident entries share an id.
pub proof fn lemma_ring_in_seq_order(
    entries: Seq<StoredCall>,
    cap: nat,
    next: u64,
    record: CallRecord,
    content: CallContent,
)
    requires
        consecutive(entries, next),
        1 <= cap,
        entries.len() <= cap,
        next < u64::MAX,
    ensures
        consecutive(ring_after(entries, cap, StoredCall { seq: next, record, content }), (next + 1) as u64),
{
    let after = ring_after(entries, cap, StoredCall { seq: next, record, content });
    if entries.len() == cap {
        let kept = entries.subrange(1, entries.len() as int);
        assert forall|i: int| 0 <= i < after.len() implies (#[trigger] after[i]).seq == (next + 1) - after.len() + i by {
            if i < kept.len() {
                assert(after[i] == entries[i + 1]);
            }
        }
    } else {
        assert forall|i: int| 0 <= i < after.len() implies (#[trigger] after[i]).seq == (next + 1) - after.len() + i by {
            if i < entries.len() {
                assert(after[i] == entries[i]);
            }
        }
    }
}

/// The entries of a fresh ring of capacity `cap` after recording the calls `ss`, in order.
pub open spec fn ring_of(cap: nat, ss: Seq<StoredCall>) -> Seq<StoredCall>
    decreases ss.len(),
{
    if ss.len() == 0 {
        Seq::empty()
    } else {
        ring_after(ring_of(cap, ss.drop_last()), cap, ss.last())
    }
}

/// The smaller of `a` and `b`.
pub open spec fn min_nat(a: nat, b: nat) -> nat {
    if a <= b {
        a
    } else {
        b
    }
}

/// A ring of capacity `cap` keeps exactly the last `min(n, cap)` of the `n` calls recorded
/// into it, oldest first.
pub proof fn lemma_ring_keeps_last(cap: nat, ss: Seq<StoredCall>)
    requires
        cap >= 1,
    ensures
        ring_of(cap, ss).len() == min_nat(ss.len(), cap),
        ring_of(cap, ss) == ss.subrange(ss.len() - min_nat(ss.len(), cap), ss.len() as int),
    decreases ss.len(),
{
    if ss.len() > 0 {
        let p = ss.drop_last();
        lemma_ring_keeps_last(cap, p);
        let m = min_nat(p.len(), cap);
        if m == cap {
            assert(p.subrange(p.len() - m, p.len() as int).subrange(1, m as int).push(ss.last()) =~= ss.subrange(
                ss.len() - cap,
                ss.len() as int,
            ));
        } else {
            assert(p.subrange(p.len() - m, p.len() as int).push(ss.last()) =~= ss.subrange(0, ss.len() as int));
        }
    }
}

proof fn lemma_newest_all(entries: Seq<StoredCall>)
    ensures
        newest_matches(entries, match_all()).len() == entries.len(),
    decreases entries.len(),
{
    if entries.len() > 0 {
        lemma_match_all_accepts(stored_view(entries[0], true));
        lemma_newest_all(entries.subrange(1, entries.len() as int));
    }
}

/// After `n` calls are recorded into a fresh ring made with `cap` (which holds `max(cap, 1)`),
/// the unfiltered calls list counts `min(n, max(cap, 1))` calls.
pub proof fn lemma_ring_total(cap: nat, ss: Seq<StoredCall>)
    ensures
        newest_matches(ring_of(if cap == 0 { 1 } else { cap }, ss), match_all()).len() == min_nat(
            ss.len(),
            if cap == 0 { 1 } else { cap },
        ),
{
    let c = if cap == 0 { 1 } else { cap };
    lemma_ring_keeps_last(c, ss);
    lemma_newest_all(ring_of(c, ss));
}

/// The filter on argument key `k` and value `v` alone.
pub open spec fn arg_filter(k: Seq<char>, v: Seq<char>) -> FilterView {
    FilterView {
        meta_tool: None,
        upstream: None,
        target_tool: None,
        outcome: None,
        since_ms: None,
        until_ms: None,
        q: None,
        arg_key: Some(k),
        arg_val: Some(v),
    }
}

/// The argument filter compares values without regard to case: an item whose arguments are
/// an object holding a member keyed `k` whose value text, lowercased, contains the lowercased
/// `v` passes the filter on `k` / `v` (so `{"text":"Hello"}` passes `text` / `hello`).
pub proof fn lemma_arg_filter_ignores_case(c: ItemView, k: Seq<char>, v: Seq<char>, ms: Vec<JsonMember>, i: int)
    requires
        c.args matches Some(a) && json_document(a) == Some(JsonValue::Object(ms)),
        0 <= i < ms@.len(),
        ms@[i].key@ == k,
        is_substring(lowercase(member_value_text(ms@[i])), lowercase(v)),
    ensures
        filter_holds(arg_filter(k, v), c),
{
    lemma_member_match_ignores_case(ms, i, k, v);
}

/// In particular, a string argument is compared by its characters, lowercased: an item whose
/// arguments hold `k` with string value `sv` passes the filter on `k` / `v` when the lowercased
/// `sv` contains the lowercased `v`.
pub proof fn lemma_arg_filter_string_ignores_case(c: ItemView, k: Seq<char>, v: Seq<char>, ms: Vec<JsonMember>, i: int, sv: String)
    requires
        c.args matches Some(a) && json_document(a) == Some(JsonValue::Object(ms)),
        0 <= i < ms@.len(),
        ms@[i].key@ == k,
        ms@[i].value == JsonValue::Str(sv),
        is_substring(lowercase(sv@), lowercase(v)),
    ensures
        filter_holds(arg_filter(k, v), c),
{
    lemma_arg_filter_ignores_case(c, k, v, ms, i);
}

} // verus!
