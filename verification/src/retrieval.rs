//! Retrieval's text handling: the tokenizer every lexical strategy shares, the catalog's tool
//! identity, the subagent reranker's prompt and the parsing of its reply, and the checks on
//! what the chat and embedding providers send back. Scoring (floating point) is not here.

use vstd::prelude::*;
use crate::text::{
    char_is_alphanumeric, is_alphanumeric, lowercase, to_lowercase, chars_of, push_char, push_str,
    string_of, string_of_range, str_eq, is_blank, str_is_blank, decimal,
};
use crate::observe::{push_decimal, json_quote, json_quoted};
use crate::json::{JsonValue, json_document, parse_json};
use crate::caching::{texts_of, vectors_of};

verus! {

/// Scanning `s` left to right: the words completed so far and the word being read (a word is
/// a maximal run of alphanumeric characters).
pub open spec fn word_scan(s: Seq<char>) -> (Seq<Seq<char>>, Seq<char>)
    decreases s.len(),
{
    if s.len() == 0 {
        (Seq::empty(), Seq::empty())
    } else {
        let (ws, cur) = word_scan(s.drop_last());
        if char_is_alphanumeric(s.last()) {
            (ws, cur.push(s.last()))
        } else if cur.len() > 0 {
            (ws.push(cur), Seq::empty())
        } else {
            (ws, Seq::empty())
        }
    }
}

/// The words of `s`: its maximal runs of alphanumeric characters, in order.
pub open spec fn words(s: Seq<char>) -> Seq<Seq<char>> {
    let (ws, cur) = word_scan(s);
    if cur.len() > 0 {
        ws.push(cur)
    } else {
        ws
    }
}

/// Splits on non-alphanumeric characters, drops empty pieces, lowercases each token.
pub fn tokenize(text: &str) -> (r: Vec<String>)
    ensures
        r@.len() == words(text@).len(),
        forall|i: int| 0 <= i < r@.len() ==> (#[trigger] r@[i])@ == lowercase(words(text@)[i]),
        forall|i: int| 0 <= i < r@.len() ==> (#[trigger] r@[i])@.len() > 0,
{
    let cs = chars_of(text);
    let mut out: Vec<String> = Vec::new();
    let mut start: usize = 0;
    let mut i: usize = 0;
    while i < cs.len()
        invariant
            i <= cs@.len(),
            cs@ == text@,
            start <= i,
            word_scan(text@.take(i as int)).1 == text@.subrange(start as int, i as int),
            out@.len() == word_scan(text@.take(i as int)).0.len(),
            forall|k: int| 0 <= k < out@.len() ==> (#[trigger] out@[k])@ == lowercase(word_scan(text@.take(i as int)).0[k]),
            forall|k: int| 0 <= k < out@.len() ==> (#[trigger] out@[k])@.len() > 0,
        decreases cs@.len() - i,
    {
        let ghost pre = text@.take(i as int);
        proof {
            assert(text@.take(i + 1).drop_last() =~= pre);
        }
        if is_alphanumeric(cs[i]) {
            proof {
                assert(text@.subrange(start as int, i + 1) =~= text@.subrange(start as int, i as int).push(cs@[i as int]));
            }
        } else {
            if start < i {
                let w = string_of_range(&cs, start, i);
                let lw = to_lowercase(w.as_str());
                out.push(lw);
                proof {
                    assert(word_scan(text@.take(i + 1)).0 == word_scan(pre).0.push(word_scan(pre).1));
                }
            }
            start = i + 1;
            proof {
                assert(text@.subrange(start as int, i + 1) =~= Seq::<char>::empty());
            }
        }
        i = i + 1;
    }
    proof {
        assert(text@.take(cs@.len() as int) =~= text@);
    }
    if start < cs.len() {
        let w = string_of_range(&cs, start, cs.len());
        out.push(to_lowercase(w.as_str()));
    }
    out
}

/// A tool as the catalog holds it (its input schema is carried as plain JSON text).
#[derive(Debug, Clone, PartialEq)]
pub struct ToolDef {
    /// Upstream server namespace.
    pub server: String,
    /// Tool name within that server.
    pub name: String,
    /// One-line description used for retrieval and listings.
    pub description: String,
    /// The JSON input schema, as text.
    pub input_schema: String,
}

impl ToolDef {
    /// Namespaced, collision-free identifier: `{server}__{name}`.
    pub fn qualified_name(&self) -> (r: String)
        ensures
            r@ == self.server@ + "__"@ + self.name@,
    {
        let mut s = string_of(self.server.as_str());
        push_str(&mut s, "__");
        push_str(&mut s, self.name.as_str());
        s
    }
}

/// A tool's namespaced name: `{server}__{name}`.
pub open spec fn qualified(t: ToolDef) -> Seq<char> {
    t.server@ + "__"@ + t.name@
}

/// The position of the first tool of `catalog` whose qualified name is `name`.
pub open spec fn first_tool(catalog: Seq<ToolDef>, name: Seq<char>) -> Option<int> {
    if exists|i: int| 0 <= i < catalog.len() && qualified(#[trigger] catalog[i]) == name {
        Some(choose|i: int| 0 <= i < catalog.len() && qualified(#[trigger] catalog[i]) == name && forall|j: int| 0 <= j < i ==> qualified(#[trigger] catalog[j]) != name)
    } else {
        None
    }
}

/// The position of the tool named `name` in the catalog (see `first_tool`).
pub fn tool_position(catalog: &Vec<ToolDef>, name: &str) -> (r: Option<usize>)
    ensures
        match r {
            Some(i) => i < catalog@.len() && first_tool(catalog@, name@) == Some(i as int),
            None => first_tool(catalog@, name@) is None,
        },
{
    let mut i: usize = 0;
    while i < catalog.len()
        invariant
            i <= catalog@.len(),
            forall|j: int| 0 <= j < i ==> qualified(#[trigger] catalog@[j]) != name@,
        decreases catalog@.len() - i,
    {
        let q = catalog[i].qualified_name();
        if str_eq(q.as_str(), name) {
            proof {
                let w = choose|w: int| 0 <= w < catalog@.len() && qualified(#[trigger] catalog@[w]) == name@ && forall|j: int| 0 <= j < w ==> qualified(#[trigger] catalog@[j]) != name@;
                if w < i {
                } else if w > i {
                    assert(qualified(catalog@[i as int]) != name@);
                }
            }
            return Some(i);
        }
        i = i + 1;
    }
    None
}

/// The full definition of the tool named `name` (`{server}__{tool}`), if the catalog holds it.
pub fn get_tool_details<'a>(catalog: &'a Vec<ToolDef>, name: &str) -> (r: Option<&'a ToolDef>)
    ensures
        match first_tool(catalog@, name@) {
            Some(i) => r == Some(&catalog@[i]),
            None => r is None,
        },
{
    match tool_position(catalog, name) {
        Some(i) => Some(&catalog[i]),
        None => None,
    }
}

/// The instructions given to the reranking chat model, as text.
pub open spec fn system_prompt_text() -> Seq<char> {
    "You are a tool selector. Given a user query and a numbered list of candidate tools (qualified_name: description), choose the tools most relevant to the query. Reply with ONLY a JSON array of the chosen qualified_names, most relevant first, no more than the number requested, choosing ONLY from the candidates. No prose, no code fences."@
}

/// The instructions given to the reranking chat model.
pub fn system_prompt() -> (r: &'static str)
    ensures
        r@ == system_prompt_text(),
{
    "You are a tool selector. Given a user query and a numbered list of candidate tools (qualified_name: description), choose the tools most relevant to the query. Reply with ONLY a JSON array of the chosen qualified_names, most relevant first, no more than the number requested, choosing ONLY from the candidates. No prose, no code fences."
}

/// Default size of the lexical shortlist handed to the chat model.
pub const DEFAULT_CANDIDATES: usize = 20;

/// The candidate lines of the prompt, numbered from 1.
pub open spec fn candidate_lines(c: Seq<(String, String)>) -> Seq<char>
    decreases c.len(),
{
    if c.len() == 0 {
        Seq::empty()
    } else {
        candidate_lines(c.drop_last()) + decimal(c.len()) + ". "@ + c.last().0@ + ": "@ + c.last().1@ + "\n"@
    }
}

/// The user prompt: the query, the requested count, and the numbered candidates.
pub open spec fn user_prompt(query: Seq<char>, c: Seq<(String, String)>, top_k: usize) -> Seq<char> {
    "Query: "@ + query + "\nReturn at most "@ + decimal(top_k as nat) + " qualified_names.\nCandidates:\n"@
        + candidate_lines(c)
}

/// Builds the reranker's user prompt from the query and the `(qualified_name, description)`
/// shortlist.
pub fn build_user_prompt(query: &str, shortlist: &Vec<(String, String)>, top_k: usize) -> (r: String)
    requires
        shortlist@.len() < u64::MAX,
    ensures
        r@ == user_prompt(query@, shortlist@, top_k),
{
    let mut s = string_of("Query: ");
    push_str(&mut s, query);
    push_str(&mut s, "\nReturn at most ");
    push_decimal(&mut s, top_k as u64);
    push_str(&mut s, " qualified_names.\nCandidates:\n");
    let ghost head = s@;
    let mut i: usize = 0;
    while i < shortlist.len()
        invariant
            i <= shortlist@.len(),
            shortlist@.len() < u64::MAX,
            s@ == head + candidate_lines(shortlist@.take(i as int)),
        decreases shortlist@.len() - i,
    {
        proof {
            assert(shortlist@.take(i + 1).drop_last() =~= shortlist@.take(i as int));
        }
        push_decimal(&mut s, (i + 1) as u64);
        push_str(&mut s, ". ");
        push_str(&mut s, shortlist[i].0.as_str());
        push_str(&mut s, ": ");
        push_str(&mut s, shortlist[i].1.as_str());
        push_str(&mut s, "\n");
        proof {
            assert(s@ =~= head + candidate_lines(shortlist@.take(i + 1)));
        }
        i = i + 1;
    }
    proof {
        assert(shortlist@.take(shortlist@.len() as int) =~= shortlist@);
        assert(s@ =~= user_prompt(query@, shortlist@, top_k));
    }
    s
}

/// The span of `reply` from its first `[` to its last `]`, when the last comes after the
/// first.
pub open spec fn bracket_span(reply: Seq<char>) -> Option<Seq<char>> {
    if (exists|i: int| 0 <= i < reply.len() && reply[i] == '[') && (exists|j: int| 0 <= j < reply.len() && reply[j] == ']') {
        let a = choose|i: int| 0 <= i < reply.len() && reply[i] == '[' && forall|k: int| 0 <= k < i ==> reply[k] != '[';
        let b = choose|j: int| 0 <= j < reply.len() && reply[j] == ']' && forall|k: int| j < k < reply.len() ==> reply[k] != ']';
        if b > a {
            Some(reply.subrange(a, b + 1))
        } else {
            None
        }
    } else {
        None
    }
}

/// The strings of a JSON array whose elements are all strings.
pub open spec fn string_array(v: Option<JsonValue>) -> Option<Seq<Seq<char>>> {
    match v {
        Some(JsonValue::Array(items)) => if forall|i: int| 0 <= i < items@.len() ==> (#[trigger] items@[i]) is Str {
            Some(items@.map_values(|x: JsonValue| match x {
                JsonValue::Str(s) => s@,
                _ => Seq::empty(),
            }))
        } else {
            None
        },
        _ => None,
    }
}

/// Some element of `v` has text `n`.
pub open spec fn names_contain(v: Seq<String>, n: Seq<char>) -> bool {
    exists|i: int| 0 <= i < v.len() && (#[trigger] v[i])@ == n
}

/// The names of `names` that are in `allowed`, first occurrence only, in order.
pub open spec fn selection(names: Seq<Seq<char>>, allowed: Seq<String>) -> Seq<Seq<char>>
    decreases names.len(),
{
    if names.len() == 0 {
        Seq::empty()
    } else {
        let r = selection(names.drop_last(), allowed);
        let n = names.last();
        if names_contain(allowed, n) && !r.contains(n) {
            r.push(n)
        } else {
            r
        }
    }
}

/// What the reranker's reply selects: the JSON array of strings between the first `[` and
/// the last `]`, kept to the allowed names, de-duplicated, in order; empty when the reply
/// holds no such array.
pub open spec fn selected(reply: Seq<char>, allowed: Seq<String>) -> Seq<Seq<char>> {
    match bracket_span(reply) {
        Some(span) => match string_array(json_document(span)) {
            Some(names) => selection(names, allowed),
            None => Seq::empty(),
        },
        None => Seq::empty(),
    }
}

fn names_include(v: &Vec<String>, n: &str) -> (r: bool)
    ensures
        r == names_contain(v@, n@),
{
    let mut i: usize = 0;
    while i < v.len()
        invariant
            i <= v@.len(),
            forall|j: int| 0 <= j < i ==> (#[trigger] v@[j])@ != n@,
        decreases v@.len() - i,
    {
        if str_eq(v[i].as_str(), n) {
            return true;
        }
        i = i + 1;
    }
    false
}

/// Parses the reranker's reply into the selected qualified names (see `selected`).
#[verifier::spinoff_prover]
#[verifier::rlimit(30)]
pub fn parse_selection(reply: &str, allowed: &Vec<String>) -> (r: Vec<String>)
    ensures
        r@.map_values(|s: String| s@) == selected(reply@, allowed@),
{
    let cs = chars_of(reply);
    let n = cs.len();
    let mut a: usize = 0;
    while a < n && cs[a] != '['
        invariant
            a <= n,
            n == cs@.len(),
            cs@ == reply@,
            forall|k: int| 0 <= k < a ==> cs@[k] != '[',
        decreases n - a,
    {
        a = a + 1;
    }
    let mut b: usize = n;
    while b > 0 && cs[b - 1] != ']'
        invariant
            b <= n,
            n == cs@.len(),
            cs@ == reply@,
            forall|k: int| b <= k < n ==> cs@[k] != ']',
        decreases b,
    {
        b = b - 1;
    }
    if a == n || b == 0 || b - 1 <= a {
        proof {
            if a == n {
                assert(!exists|i: int| 0 <= i < reply@.len() && reply@[i] == '[');
            } else if b == 0 {
                assert(!exists|j: int| 0 <= j < reply@.len() && reply@[j] == ']');
            } else {
                let wa = choose|i: int| 0 <= i < reply@.len() && reply@[i] == '[' && forall|k: int| 0 <= k < i ==> reply@[k] != '[';
                let wb = choose|j: int| 0 <= j < reply@.len() && reply@[j] == ']' && forall|k: int| j < k < reply@.len() ==> reply@[k] != ']';
                assert(wa == a) by {
                    assert(reply@[a as int] == '[');
                    if wa < a {
                    } else if wa > a {
                    }
                }
                assert(wb == b - 1) by {
                    assert(reply@[b - 1] == ']');
                    if wb < b - 1 {
                    } else if wb > b - 1 {
                    }
                }
            }
        }
        return Vec::new();
    }
    let span = string_of_range(&cs, a, b);
    proof {
        let wa = choose|i: int| 0 <= i < reply@.len() && reply@[i] == '[' && forall|k: int| 0 <= k < i ==> reply@[k] != '[';
        let wb = choose|j: int| 0 <= j < reply@.len() && reply@[j] == ']' && forall|k: int| j < k < reply@.len() ==> reply@[k] != ']';
        assert(reply@[a as int] == '[');
        assert(reply@[b - 1] == ']');
        assert(wa == a) by {
            if wa < a {
            } else if wa > a {
            }
        }
        assert(wb == b - 1) by {
            if wb < b - 1 {
            } else if wb > b - 1 {
            }
        }
        assert(bracket_span(reply@) == Some(span@));
    }
    let doc = parse_json(span.as_str());
    let items = match doc {
        Some(JsonValue::Array(items)) => items,
        _ => {
            return Vec::new();
        },
    };
    assert(json_document(span@) == Some(JsonValue::Array(items)));
    let mut names: Vec<String> = Vec::new();
    let mut i: usize = 0;
    while i < items.len()
        invariant
            i <= items@.len(),
            bracket_span(reply@) == Some(span@),
            json_document(span@) == Some(JsonValue::Array(items)),
            names@.len() == i,
            forall|k: int| 0 <= k < i ==> (#[trigger] items@[k]) is Str && names@[k]@ == match items@[k] {
                JsonValue::Str(s) => s@,
                _ => Seq::empty(),
            },
        decreases items@.len() - i,
    {
        match &items[i] {
            JsonValue::Str(s) => {
                names.push(s.clone());
            },
            _ => {
                proof {
                    assert(string_array(Some(JsonValue::Array(items))) is None);
                }
                return Vec::new();
            },
        }
        i = i + 1;
    }
    let ghost nv = names@.map_values(|s: String| s@);
    proof {
        assert(string_array(Some(JsonValue::Array(items))) == Some(nv)) by {
            assert(items@.map_values(|x: JsonValue| match x {
                JsonValue::Str(s) => s@,
                _ => Seq::empty(),
            }) =~= nv);
        }
    }
    let mut out: Vec<String> = Vec::new();
    let mut j: usize = 0;
    while j < names.len()
        invariant
            j <= names@.len(),
            selected(reply@, allowed@) == selection(nv, allowed@),
            nv == names@.map_values(|s: String| s@),
            out@.map_values(|s: String| s@) == selection(nv.take(j as int), allowed@),
        decreases names@.len() - j,
    {
        proof {
            assert(nv.take(j + 1).drop_last() =~= nv.take(j as int));
        }
        let ghost before = out@.map_values(|s: String| s@);
        if names_include(allowed, names[j].as_str()) && !names_include(&out, names[j].as_str()) {
            proof {
                assert(!before.contains(names@[j as int]@)) by {
                    if before.contains(names@[j as int]@) {
                        let k = choose|k: int| 0 <= k < before.len() && before[k] == names@[j as int]@;
                        assert(out@[k]@ == names@[j as int]@);
                    }
                }
            }
            out.push(names[j].clone());
            proof {
                assert(out@.map_values(|s: String| s@) =~= before.push(names@[j as int]@));
            }
        } else {
            proof {
                if names_contain(out@, names@[j as int]@) {
                    let k = choose|k: int| 0 <= k < out@.len() && (#[trigger] out@[k])@ == names@[j as int]@;
                    assert(before[k] == names@[j as int]@);
                }
            }
        }
        j = j + 1;
    }
    proof {
        assert(nv.take(nv.len() as int) =~= nv);
    }
    out
}

/// Why a chat call produced nothing usable.
#[derive(Debug)]
pub enum ChatError {
    /// The provider failed.
    Provider(String),
    /// The model replied with no usable content.
    Empty,
}

impl ChatError {
    /// The error's message.
    pub fn message(&self) -> (r: String)
        ensures
            r@ == match self {
                ChatError::Provider(m) => "chat provider error: "@ + m@,
                ChatError::Empty => "chat model returned no usable content"@,
            },
    {
        match self {
            ChatError::Provider(m) => {
                let mut s = string_of("chat provider error: ");
                push_str(&mut s, m.as_str());
                s
            },
            ChatError::Empty => string_of("chat model returned no usable content"),
        }
    }
}

/// The reply of a chat completion from the first choice's content: usable only when present
/// and not blank.
pub fn chat_reply(content: Option<String>) -> (r: Result<String, ChatError>)
    ensures
        match content {
            Some(s) => if is_blank(s@) {
                r matches Err(ChatError::Empty)
            } else {
                r matches Ok(t) && t == s
            },
            None => r matches Err(ChatError::Empty),
        },
{
    match content {
        Some(s) => {
            if str_is_blank(s.as_str()) {
                Err(ChatError::Empty)
            } else {
                Ok(s)
            }
        },
        None => Err(ChatError::Empty),
    }
}

/// Why an embedding call failed.
#[derive(Debug)]
pub enum EmbedError {
    /// The provider failed.
    Provider(String),
    /// A vector had another dimension than configured.
    Dimension { expected: usize, got: usize },
}

impl EmbedError {
    /// The error's message.
    pub fn message(&self) -> (r: String)
        ensures
            r@ == match self {
                EmbedError::Provider(m) => "embedding provider error: "@ + m@,
                EmbedError::Dimension { expected, got } => "embedding dimension mismatch: expected "@
                    + decimal(*expected as nat) + ", got "@ + decimal(*got as nat),
            },
    {
        match self {
            EmbedError::Provider(m) => {
                let mut s = string_of("embedding provider error: ");
                push_str(&mut s, m.as_str());
                s
            },
            EmbedError::Dimension { expected, got } => {
                let mut s = string_of("embedding dimension mismatch: expected ");
                push_decimal(&mut s, *expected as u64);
                push_str(&mut s, ", got ");
                push_decimal(&mut s, *got as u64);
                s
            },
        }
    }
}

/// What an embedding call answered, with the vectors taken by their components.
pub open spec fn embed_outcome(r: Result<Vec<Vec<u32>>, EmbedError>) -> Result<Seq<Seq<u32>>, EmbedError> {
    match r {
        Ok(vs) => Ok(vectors_of(vs@)),
        Err(e) => Err(e),
    }
}

/// Turns a batch of texts into one vector each, in the same order, all or nothing. A vector
/// is held as the bit patterns of its `f32` components.
pub trait Embedder {
    /// The batches of texts asked for so far, oldest first.
    spec fn batches(&self) -> Seq<Seq<Seq<char>>>;

    /// What each of those calls answered, oldest first.
    spec fn outcomes(&self) -> Seq<Result<Seq<Seq<u32>>, EmbedError>>;

    /// Embeds `texts`.
    fn embed(&mut self, texts: &Vec<String>) -> (r: Result<Vec<Vec<u32>>, EmbedError>)
        ensures
            final(self).batches() == old(self).batches().push(texts_of(texts@)),
            final(self).outcomes() == old(self).outcomes().push(embed_outcome(r)),
    ;

    /// The dimension its vectors are expected to have.
    fn dim(&self) -> usize;
}

/// Counts of a bucket saturate where adding one to an `f32` stops changing it.
pub const F32_EXACT_LIMIT: u32 = 16777216;

/// The bit pattern of the `f32` that holds the whole number `n` exactly: for
/// `2^e <= n < 2^(e+1)`, the biased exponent `127 + e` above the 23 bits of `n - 2^e`.
pub open spec fn f32_bits_of(n: nat, e: nat) -> nat {
    if n == 0 {
        0
    } else {
        ((127 + e) * 0x80_0000 + (n - vstd::arithmetic::power2::pow2(e)) * (0x80_0000nat / vstd::arithmetic::power2::pow2(e))) as nat
    }
}

/// The exponent `e` with `2^e <= n < 2^(e+1)`.
pub open spec fn floor_log2(n: nat) -> nat {
    choose|e: nat| #[trigger] vstd::arithmetic::power2::pow2(e) <= n < 2 * vstd::arithmetic::power2::pow2(e)
}

/// The bit pattern of the `f32` that holds the whole number `n`.
pub open spec fn f32_bits(n: nat) -> nat {
    f32_bits_of(n, floor_log2(n))
}

proof fn lemma_floor_log2_unique(n: nat, e: nat)
    requires
        vstd::arithmetic::power2::pow2(e) <= n < 2 * vstd::arithmetic::power2::pow2(e),
    ensures
        floor_log2(n) == e,
{
    let d = floor_log2(n);
    assert(vstd::arithmetic::power2::pow2(d) <= n < 2 * vstd::arithmetic::power2::pow2(d));
    if d < e {
        vstd::arithmetic::power2::lemma_pow2_unfold(e);
        if d + 1 < e {
            vstd::arithmetic::power2::lemma_pow2_strictly_increases((d + 1) as nat, e);
        }
        vstd::arithmetic::power2::lemma_pow2_unfold((d + 1) as nat);
    } else if e < d {
        vstd::arithmetic::power2::lemma_pow2_unfold(d);
        if e + 1 < d {
            vstd::arithmetic::power2::lemma_pow2_strictly_increases((e + 1) as nat, d);
        }
        vstd::arithmetic::power2::lemma_pow2_unfold((e + 1) as nat);
    }
}

/// The bit pattern of `n` as an `f32` (exact up to `F32_EXACT_LIMIT`).
fn f32_bits_of_count(n: u32) -> (r: u32)
    requires
        n <= F32_EXACT_LIMIT,
    ensures
        r == f32_bits(n as nat),
{
    if n == 0 {
        return 0;
    }
    let mut e: u32 = 0;
    let mut p: u32 = 1;
    proof {
        vstd::arithmetic::power2::lemma2_to64();
    }
    while p <= n / 2
        invariant
            1 <= p <= n <= F32_EXACT_LIMIT,
            p == vstd::arithmetic::power2::pow2(e as nat),
            e <= 24,
        decreases n - p,
    {
        proof {
            vstd::arithmetic::power2::lemma_pow2_unfold((e + 1) as nat);
            vstd::arithmetic::power2::lemma2_to64();
            if e >= 24 {
                vstd::arithmetic::power2::lemma_pow2_strictly_increases(24, e as nat);
            }
        }
        p = p * 2;
        e = e + 1;
        proof {
            if e > 24 {
                vstd::arithmetic::power2::lemma_pow2_strictly_increases(24, e as nat);
            }
        }
    }
    proof {
        vstd::arithmetic::power2::lemma_pow2_unfold((e + 1) as nat);
        vstd::arithmetic::power2::lemma2_to64();
    }
    let scale: u32 = 0x80_0000 / p;
    let rest: u32 = n - p;
    assert(rest * scale <= 0x80_0000) by (nonlinear_arith)
        requires
            rest < p,
            scale == 0x80_0000u32 / p,
            p >= 1,
    {
        assert(p * (0x80_0000u32 / p) <= 0x80_0000);
        assert(rest * scale <= p * scale);
    }
    let r: u32 = (127 + e) * 0x80_0000 + rest * scale;
    proof {
        assert(vstd::arithmetic::power2::pow2(e as nat) <= n < 2 * vstd::arithmetic::power2::pow2(e as nat));
        lemma_floor_log2_unique(n as nat, e as nat);
        assert(r == f32_bits_of(n as nat, e as nat));
    }
    r
}

/// The first `n` characters of `s` (all of it when shorter).
pub fn first_chars(s: &str, n: usize) -> (r: String)
    ensures
        r@ == if s@.len() <= n { s@ } else { s@.take(n as int) },
{
    let cs = chars_of(s);
    let hi = if cs.len() <= n { cs.len() } else { n };
    let r = string_of_range(&cs, 0, hi);
    proof {
        if s@.len() <= n {
            assert(r@ =~= s@);
        }
    }
    r
}

/// The message of a provider's non-success HTTP answer: the status, the endpoint, and the
/// first 500 characters of the body.
pub fn http_failure(status: &str, endpoint: &str, body: &str) -> (r: String)
    ensures
        r@ == "HTTP "@ + status@ + " from "@ + endpoint@ + " endpoint: "@ + (if body@.len() <= 500 {
            body@
        } else {
            body@.take(500)
        }),
{
    let mut s = string_of("HTTP ");
    push_str(&mut s, status);
    push_str(&mut s, " from ");
    push_str(&mut s, endpoint);
    push_str(&mut s, " endpoint: ");
    let snippet = first_chars(body, 500);
    push_str(&mut s, snippet.as_str());
    s
}

/// `s` without its trailing `/` characters.
pub open spec fn without_trailing_slashes(s: Seq<char>) -> Seq<char>
    decreases s.len(),
{
    if s.len() > 0 && s.last() == '/' {
        without_trailing_slashes(s.drop_last())
    } else {
        s
    }
}

/// A provider base URL without trailing slashes.
pub fn trim_trailing_slashes(s: &str) -> (r: String)
    ensures
        r@ == without_trailing_slashes(s@),
{
    let cs = chars_of(s);
    let mut k: usize = cs.len();
    assert(cs@.take(k as int) =~= s@);
    while k > 0 && cs[k - 1] == '/'
        invariant
            k <= cs@.len(),
            cs@ == s@,
            without_trailing_slashes(s@) == without_trailing_slashes(cs@.take(k as int)),
        decreases k,
    {
        proof {
            assert(cs@.take(k as int).drop_last() =~= cs@.take(k - 1));
        }
        k = k - 1;
    }
    let r = string_of_range(&cs, 0, k);
    proof {
        assert(r@ =~= cs@.take(k as int));
    }
    r
}

/// Matching an embeddings answer to its inputs: entry `p` of the answer claims index
/// `indices[p]`. The answer fits when its indices are exactly `0..n`, each once; then
/// `order[i]` is the entry holding input `i`.
pub open spec fn fits(indices: Seq<usize>, n: nat, order: Seq<usize>) -> bool {
    &&& indices.len() == n
    &&& order.len() == n
    &&& forall|i: int| 0 <= i < n ==> (#[trigger] order[i]) < n && indices[order[i] as int] == i
}

/// The entry holding each input, or `None` when the answer's indices are not exactly `0..n`.
pub fn embedding_order(indices: &Vec<usize>, n: usize) -> (r: Option<Vec<usize>>)
    ensures
        match r {
            Some(order) => fits(indices@, n as nat, order@),
            None => !exists|order: Seq<usize>| fits(indices@, n as nat, order),
        },
{
    if indices.len() != n {
        return None;
    }
    let mut order: Vec<usize> = Vec::new();
    let mut i: usize = 0;
    while i < n
        invariant
            i <= n,
            indices@.len() == n,
            order@.len() == i,
            forall|k: int| 0 <= k < i ==> (#[trigger] order@[k]) < n && indices@[order@[k] as int] == k,
        decreases n - i,
    {
        let mut p: usize = 0;
        while p < n && indices[p] != i
            invariant
                p <= n,
                indices@.len() == n,
                forall|q: int| 0 <= q < p ==> indices@[q] != i,
            decreases n - p,
        {
            p = p + 1;
        }
        if p == n {
            proof {
                assert forall|o: Seq<usize>| !fits(indices@, n as nat, o) by {
                    if fits(indices@, n as nat, o) {
                        assert(indices@[o[i as int] as int] == i);
                    }
                }
            }
            return None;
        }
        order.push(p);
        i = i + 1;
    }
    Some(order)
}

/// Checks every vector's dimension (in input order) against the configured one.
pub fn check_dimensions(dims: &Vec<usize>, order: &Vec<usize>, expected: Option<usize>) -> (r: Result<(), EmbedError>)
    requires
        forall|i: int| 0 <= i < order@.len() ==> (#[trigger] order@[i]) < dims@.len(),
    ensures
        match expected {
            None => r is Ok,
            Some(e) => match r {
                Ok(()) => forall|i: int| 0 <= i < order@.len() ==> dims@[(#[trigger] order@[i]) as int] == e,
                Err(EmbedError::Dimension { expected: x, got }) => x == e && exists|i: int|
                    0 <= i < order@.len() && dims@[(#[trigger] order@[i]) as int] == got && got != e
                        && forall|j: int| 0 <= j < i ==> dims@[(#[trigger] order@[j]) as int] == e,
                Err(_) => false,
            },
        },
{
    match expected {
        None => Ok(()),
        Some(e) => {
            let mut i: usize = 0;
            while i < order.len()
                invariant
                    i <= order@.len(),
                    expected == Some(e),
                    forall|k: int| 0 <= k < order@.len() ==> (#[trigger] order@[k]) < dims@.len(),
                    forall|j: int| 0 <= j < i ==> dims@[(#[trigger] order@[j]) as int] == e,
                decreases order@.len() - i,
            {
                let got = dims[order[i]];
                if got != e {
                    return Err(EmbedError::Dimension { expected: e, got });
                }
                i = i + 1;
            }
            Ok(())
        },
    }
}


/// The JSON body of a chat completion request (`serde_json` writes the object's keys in
/// sorted order): the two messages, the model, and temperature 0.
pub open spec fn chat_body(model: Seq<char>, system: Seq<char>, user: Seq<char>) -> Seq<char> {
    "{\"messages\":[{\"content\":"@ + json_quoted(system) + ",\"role\":\"system\"},{\"content\":"@
        + json_quoted(user) + ",\"role\":\"user\"}],\"model\":"@ + json_quoted(model)
        + ",\"temperature\":0}"@
}

/// The body of the chat completion request asking `model` with the `system` and `user` prompts.
pub fn chat_request_body(model: &str, system: &str, user: &str) -> (r: String)
    ensures
        r@ == chat_body(model@, system@, user@),
{
    let mut b = string_of("{\"messages\":[{\"content\":");
    push_str(&mut b, json_quote(system).as_str());
    push_str(&mut b, ",\"role\":\"system\"},{\"content\":");
    push_str(&mut b, json_quote(user).as_str());
    push_str(&mut b, ",\"role\":\"user\"}],\"model\":");
    push_str(&mut b, json_quote(model).as_str());
    push_str(&mut b, ",\"temperature\":0}");
    b
}

/// The texts as the items of a JSON array of strings, comma-separated.
pub open spec fn json_string_items(ts: Seq<String>) -> Seq<char>
    decreases ts.len(),
{
    if ts.len() == 0 {
        Seq::empty()
    } else if ts.len() == 1 {
        json_quoted(ts[0]@)
    } else {
        json_string_items(ts.drop_last()) + ","@ + json_quoted(ts.last()@)
    }
}

/// The JSON body of an embeddings request: the texts as `input`, then the model.
pub open spec fn embeddings_body(model: Seq<char>, texts: Seq<String>) -> Seq<char> {
    "{\"input\":["@ + json_string_items(texts) + "],\"model\":"@ + json_quoted(model) + "}"@
}

/// The body of the embeddings request for `texts`, or `None` when there are none: an empty
/// input is answered with no vectors and no request is sent.
pub fn embeddings_request(model: &str, texts: &Vec<String>) -> (r: Option<String>)
    ensures
        texts@.len() == 0 ==> r is None,
        texts@.len() > 0 ==> (r matches Some(b) && b@ == embeddings_body(model@, texts@)),
{
    if texts.len() == 0 {
        return None;
    }
    let mut items = json_quote(texts[0].as_str());
    let mut i: usize = 1;
    proof {
        assert(texts@.take(1) =~= seq![texts@[0]]);
        assert(json_string_items(texts@.take(1)) == json_quoted(texts@[0]@));
    }
    while i < texts.len()
        invariant
            1 <= i <= texts@.len(),
            items@ == json_string_items(texts@.take(i as int)),
        decreases texts@.len() - i,
    {
        proof {
            assert(texts@.take(i + 1).drop_last() =~= texts@.take(i as int));
            assert(texts@.take(i + 1).last() == texts@[i as int]);
        }
        push_str(&mut items, ",");
        push_str(&mut items, json_quote(texts[i].as_str()).as_str());
        i = i + 1;
    }
    proof {
        assert(texts@.take(texts@.len() as int) =~= texts@);
    }
    let mut b = string_of("{\"input\":[");
    push_str(&mut b, items.as_str());
    push_str(&mut b, "],\"model\":");
    push_str(&mut b, json_quote(model).as_str());
    push_str(&mut b, "}");
    Some(b)
}

/// The message when an embeddings answer does not hold exactly one vector per input.
pub open spec fn index_mismatch_message(n: nat) -> Seq<char> {
    "embeddings response did not match "@ + decimal(n) + " inputs by index"@
}

/// `r` is how an embeddings answer with entry indices `indices` and vector lengths `dims`, for
/// `n` texts, is put in input order (see `arrange_embeddings`).
pub open spec fn arranged(indices: Seq<usize>, dims: Seq<usize>, n: nat, expected: Option<usize>, r: Result<Vec<usize>, EmbedError>) -> bool {
    &&& !(exists|order: Seq<usize>| fits(indices, n, order)) ==> (r matches Err(EmbedError::Provider(m))
            && m@ == index_mismatch_message(n))
    &&& (exists|order: Seq<usize>| fits(indices, n, order)) ==> match r {
            Ok(order) => fits(indices, n, order@) && match expected {
                Some(e) => forall|i: int| 0 <= i < order@.len() ==> dims[(#[trigger] order@[i]) as int] == e,
                None => true,
            },
            Err(EmbedError::Dimension { expected: x, got }) => expected == Some(x) && exists|order: Seq<usize>|
                fits(indices, n, order) && exists|i: int|
                0 <= i < order.len() && dims[(#[trigger] order[i]) as int] == got && got != x
                    && forall|j: int| 0 <= j < i ==> dims[(#[trigger] order[j]) as int] == x,
            Err(_) => false,
        }
}

/// Puts an embeddings answer in input order. `indices` and `dims` are each answered entry's
/// index and vector length, as the provider sent them, for a request of `n` texts; the result
/// is, per input, the entry holding it. Refused (a provider error) when the indices are not
/// exactly `0..n`; refused (a dimension error) when a dimension is configured and a vector, the
/// first in input order, has another.
pub fn arrange_embeddings(indices: &Vec<usize>, dims: &Vec<usize>, n: usize, expected: Option<usize>) -> (r: Result<Vec<usize>, EmbedError>)
    requires
        indices@.len() == dims@.len(),
    ensures
        arranged(indices@, dims@, n as nat, expected, r),
{
    match embedding_order(indices, n) {
        None => {
            let mut m = string_of("embeddings response did not match ");
            push_decimal(&mut m, n as u64);
            push_str(&mut m, " inputs by index");
            Err(EmbedError::Provider(m))
        },
        Some(order) => {
            proof {
                assert forall|i: int| 0 <= i < order@.len() implies (#[trigger] order@[i]) < dims@.len() by {
                    assert(order@[i] < n);
                }
            }
            match check_dimensions(dims, &order, expected) {
                Ok(()) => Ok(order),
                Err(e) => Err(e),
            }
        },
    }
}

/// A single-shot chat model: a system and a user prompt yield the assistant's text.
/// The reply of a completion as text, `None` when it failed.
pub open spec fn reply_text(r: Result<String, ChatError>) -> Option<Seq<char>> {
    match r {
        Ok(t) => Some(t@),
        Err(_) => None,
    }
}

pub trait ChatModel {
    /// The `(system, user)` prompts of every completion asked so far, oldest first.
    spec fn requests(&self) -> Seq<(Seq<char>, Seq<char>)>;

    /// The reply of every completion so far, oldest first (`None` for a failed one).
    spec fn replies(&self) -> Seq<Option<Seq<char>>>;

    /// One completion: asks with `system` and `user`, and answers the assistant's text.
    fn complete(&mut self, system: &str, user: &str) -> (r: Result<String, ChatError>)
        ensures
            final(self).requests() == old(self).requests().push((system@, user@)),
            final(self).replies() == old(self).replies().push(reply_text(r)),
    ;
}

/// A scripted chat model: it answers its reply every time (or fails, when built with
/// `failing`), and records how often it was called and the last prompts it was given.
pub struct MockChatModel {
    pub reply: String,
    pub fail: bool,
    pub calls: usize,
    pub last_system: String,
    pub last_user: String,
    /// The prompts of every completion asked so far.
    pub asked: Ghost<Seq<(Seq<char>, Seq<char>)>>,
    /// The reply of every completion so far.
    pub answered: Ghost<Seq<Option<Seq<char>>>>,
}

impl MockChatModel {
    /// A model that always answers `reply`.
    pub fn new(reply: &str) -> (r: MockChatModel)
        ensures
            r.reply@ == reply@,
            !r.fail,
            r.calls == 0,
            r.last_system@ == Seq::<char>::empty(),
            r.last_user@ == Seq::<char>::empty(),
            r.requests() == Seq::<(Seq<char>, Seq<char>)>::empty(),
            r.replies() == Seq::<Option<Seq<char>>>::empty(),
    {
        MockChatModel {
            reply: string_of(reply),
            fail: false,
            calls: 0,
            last_system: String::new(),
            last_user: String::new(),
            asked: Ghost(Seq::empty()),
            answered: Ghost(Seq::empty()),
        }
    }

    /// A model whose every completion fails.
    pub fn failing() -> (r: MockChatModel)
        ensures
            r.reply@ == Seq::<char>::empty(),
            r.fail,
            r.calls == 0,
            r.last_system@ == Seq::<char>::empty(),
            r.last_user@ == Seq::<char>::empty(),
            r.requests() == Seq::<(Seq<char>, Seq<char>)>::empty(),
            r.replies() == Seq::<Option<Seq<char>>>::empty(),
    {
        MockChatModel {
            reply: String::new(),
            fail: true,
            calls: 0,
            last_system: String::new(),
            last_user: String::new(),
            asked: Ghost(Seq::empty()),
            answered: Ghost(Seq::empty()),
        }
    }
}

impl ChatModel for MockChatModel {
    open spec fn requests(&self) -> Seq<(Seq<char>, Seq<char>)> {
        self.asked@
    }

    open spec fn replies(&self) -> Seq<Option<Seq<char>>> {
        self.answered@
    }

    fn complete(&mut self, system: &str, user: &str) -> (r: Result<String, ChatError>)
        ensures
            final(self).calls == (if old(self).calls == usize::MAX { 0 } else { (old(self).calls + 1) as usize }),
            final(self).last_system@ == system@,
            final(self).last_user@ == user@,
            final(self).reply@ == old(self).reply@,
            final(self).fail == old(self).fail,
            old(self).fail ==> (r matches Err(ChatError::Provider(m)) && m@ == "mock failure"@),
            !old(self).fail ==> (r matches Ok(t) && t@ == old(self).reply@),
    {
        self.calls = self.calls.wrapping_add(1);
        self.last_system = string_of(system);
        self.last_user = string_of(user);
        proof {
            self.asked@ = self.asked@.push((system@, user@));
        }
        if self.fail {
            let r = Err(ChatError::Provider(string_of("mock failure")));
            proof {
                self.answered@ = self.answered@.push(reply_text(r));
            }
            return r;
        }
        let r = Ok(self.reply.clone());
        proof {
            self.answered@ = self.answered@.push(reply_text(r));
        }
        r
    }
}

/// The position of the last entry of `names` with text `n` (`-1` when there is none).
pub open spec fn last_position(names: Seq<String>, n: Seq<char>) -> int
    decreases names.len(),
{
    if names.len() == 0 {
        -1
    } else if names.last()@ == n {
        names.len() - 1
    } else {
        last_position(names.drop_last(), n)
    }
}

proof fn lemma_last_position(names: Seq<String>, n: Seq<char>)
    requires
        names_contain(names, n),
    ensures
        0 <= last_position(names, n) < names.len(),
        names[last_position(names, n)]@ == n,
        forall|j: int| last_position(names, n) < j < names.len() ==> (#[trigger] names[j])@ != n,
    decreases names.len(),
{
    if names.last()@ != n {
        let i = choose|i: int| 0 <= i < names.len() && (#[trigger] names[i])@ == n;
        assert(names.drop_last()[i] == names[i]);
        lemma_last_position(names.drop_last(), n);
        let p = last_position(names, n);
        assert forall|j: int| p < j < names.len() implies (#[trigger] names[j])@ != n by {
            if j < names.len() - 1 {
                assert(names.drop_last()[j] == names[j]);
            }
        }
    }
}

proof fn lemma_selection_allowed(names: Seq<Seq<char>>, allowed: Seq<String>)
    ensures
        forall|i: int| 0 <= i < selection(names, allowed).len() ==> names_contain(allowed, #[trigger] selection(names, allowed)[i]),
    decreases names.len(),
{
    if names.len() > 0 {
        lemma_selection_allowed(names.drop_last(), allowed);
        let r = selection(names.drop_last(), allowed);
        let s = selection(names, allowed);
        assert forall|i: int| 0 <= i < s.len() implies names_contain(allowed, #[trigger] s[i]) by {
            if i < r.len() {
                assert(s[i] == r[i]);
            }
        }
    }
}

proof fn lemma_reply_selection_allowed(allowed: Seq<String>, reply: Option<Seq<char>>)
    ensures
        forall|i: int| 0 <= i < reply_selection(allowed, reply).len() ==> names_contain(allowed, #[trigger] reply_selection(allowed, reply)[i]),
{
    if let Some(t) = reply {
        if let Some(span) = bracket_span(t) {
            if let Some(names) = string_array(json_document(span)) {
                lemma_selection_allowed(names, allowed);
            }
        }
    }
}

/// The names a reply selects; none when the chat call failed.
pub open spec fn reply_selection(names: Seq<String>, reply: Option<Seq<char>>) -> Seq<Seq<char>> {
    match reply {
        Some(t) => selected(t, names),
        None => Seq::empty(),
    }
}

/// How a reranked search answers, best first, in terms of shortlist positions.
pub enum Reranked {
    /// Nothing usable was selected: the first `count` shortlist entries, in their own order.
    Fallback(usize),
    /// The shortlist positions of the selected tools, best first, and how many tools the
    /// reply selected in all.
    Selected(Vec<usize>, usize),
}

/// `r` is what a search over the shortlist `names` answers to `top_k` after the reranker
/// replied `reply` (`None` when the call failed): the reply's selection, cut to `top_k`, each
/// at its (last) position in the shortlist; the shortlist itself, cut to `top_k`, when the
/// reply selects nothing.
pub open spec fn reranked_as(r: Reranked, names: Seq<String>, reply: Option<Seq<char>>, top_k: usize) -> bool {
    let sel = reply_selection(names, reply);
    if sel.len() == 0 {
        r == Reranked::Fallback(if top_k < names.len() { top_k } else { names.len() as usize })
    } else {
        match r {
            Reranked::Selected(pos, total) => {
                &&& total == sel.len()
                &&& pos@.len() == (if top_k < sel.len() { top_k as int } else { sel.len() as int })
                &&& forall|i: int| 0 <= i < pos@.len() ==> #[trigger] pos@[i] == last_position(names, sel[i])
            },
            _ => false,
        }
    }
}

fn last_position_of(names: &Vec<String>, n: &str) -> (p: usize)
    requires
        names_contain(names@, n@),
    ensures
        p == last_position(names@, n@),
{
    proof {
        lemma_last_position(names@, n@);
    }
    let mut k: usize = names.len();
    while k > 0
        invariant
            k <= names@.len(),
            0 <= last_position(names@, n@) < names@.len(),
            names@[last_position(names@, n@)]@ == n@,
            forall|j: int| last_position(names@, n@) < j < names@.len() ==> (#[trigger] names@[j])@ != n@,
            last_position(names@, n@) < k,
        decreases k,
    {
        if str_eq(names[k - 1].as_str(), n) {
            return k - 1;
        }
        k = k - 1;
    }
    0
}

/// What a search returns once the reranker answered `reply` about the shortlist `names`
/// (see `reranked_as`).
pub fn rerank(names: &Vec<String>, reply: Result<String, ChatError>, top_k: usize) -> (r: Reranked)
    ensures
        reranked_as(r, names@, match reply {
            Ok(t) => Some(t@),
            Err(_) => None,
        }, top_k),
{
    let ghost rep = match &reply {
        Ok(t) => Some(t@),
        Err(_) => None::<Seq<char>>,
    };
    let sel = match reply {
        Ok(t) => parse_selection(t.as_str(), names),
        Err(_) => Vec::new(),
    };
    let ghost sv = reply_selection(names@, rep);
    assert(sel@.map_values(|s: String| s@) == sv);
    if sel.len() == 0 {
        let count = if top_k < names.len() { top_k } else { names.len() };
        return Reranked::Fallback(count);
    }
    proof {
        lemma_reply_selection_allowed(names@, rep);
    }
    let total = sel.len();
    let take = if top_k < total { top_k } else { total };
    let mut pos: Vec<usize> = Vec::new();
    let mut i: usize = 0;
    while i < take
        invariant
            take <= total,
            total == sel@.len(),
            sel@.map_values(|s: String| s@) == sv,
            forall|j: int| 0 <= j < sv.len() ==> names_contain(names@, #[trigger] sv[j]),
            i <= take,
            pos@.len() == i,
            forall|j: int| 0 <= j < i ==> #[trigger] pos@[j] == last_position(names@, sv[j]),
        decreases take - i,
    {
        assert(sv[i as int] == sel@[i as int]@);
        let p = last_position_of(names, sel[i].as_str());
        pos.push(p);
        i = i + 1;
    }
    Reranked::Selected(pos, total)
}

/// The qualified names of a `(qualified_name, description)` shortlist.
pub open spec fn shortlist_names(c: Seq<(String, String)>) -> Seq<String> {
    c.map_values(|p: (String, String)| p.0)
}

/// The reranking step of a subagent search: over a non-empty shortlist the chat model is
/// asked exactly once, with the system prompt and the user prompt of the query and the
/// shortlist, and the answer is what that reply decides (see `reranked_as`). An empty shortlist
/// answers `None` without calling the model.
pub fn subagent_select<M: ChatModel>(chat: &mut M, query: &str, shortlist: &Vec<(String, String)>, top_k: usize) -> (r: Option<Reranked>)
    requires
        shortlist@.len() < u64::MAX,
    ensures
        shortlist@.len() == 0 ==> r is None && *final(chat) == *old(chat),
        shortlist@.len() > 0 ==> {
            &&& final(chat).requests() == old(chat).requests().push(
                (system_prompt_text(), user_prompt(query@, shortlist@, top_k)),
            )
            &&& final(chat).replies().len() == old(chat).replies().len() + 1
            &&& final(chat).replies().drop_last() == old(chat).replies()
            &&& r matches Some(rr) && reranked_as(
                rr,
                shortlist_names(shortlist@),
                final(chat).replies().last(),
                top_k,
            )
        },
{
    if shortlist.len() == 0 {
        return None;
    }
    let mut names: Vec<String> = Vec::new();
    let mut i: usize = 0;
    while i < shortlist.len()
        invariant
            i <= shortlist@.len(),
            names@ == shortlist_names(shortlist@).take(i as int),
        decreases shortlist@.len() - i,
    {
        names.push(shortlist[i].0.clone());
        proof {
            assert(names@ =~= shortlist_names(shortlist@).take(i + 1));
        }
        i = i + 1;
    }
    proof {
        assert(names@ =~= shortlist_names(shortlist@));
    }
    let prompt = build_user_prompt(query, shortlist, top_k);
    let reply = chat.complete(system_prompt(), prompt.as_str());
    let ghost rep = reply_text(reply);
    let rr = rerank(&names, reply, top_k);
    proof {
        assert(chat.replies().last() == rep);
        assert(chat.replies().drop_last() =~= old(chat).replies());
    }
    Some(rr)
}


/// FNV-1a (64-bit) of a byte string.
pub open spec fn fnv1a(bytes: Seq<u8>) -> u64
    decreases bytes.len(),
{
    if bytes.len() == 0 {
        0xcbf29ce484222325u64
    } else {
        (fnv1a(bytes.drop_last()) ^ (bytes.last() as u64)).wrapping_mul(0x100000001b3u64)
    }
}

/// FNV-1a of the UTF-8 bytes of `s`.
fn fnv1a_of(s: &str) -> (h: u64)
    ensures
        h == fnv1a(vstd::utf8::encode_utf8(s@)),
{
    let bytes = s.as_bytes();
    let mut h: u64 = 0xcbf29ce484222325u64;
    let mut i: usize = 0;
    while i < bytes.len()
        invariant
            i <= bytes@.len(),
            h == fnv1a(bytes@.take(i as int)),
        decreases bytes@.len() - i,
    {
        proof {
            assert(bytes@.take(i + 1).drop_last() =~= bytes@.take(i as int));
        }
        h = (h ^ (bytes[i] as u64)).wrapping_mul(0x100000001b3u64);
        i = i + 1;
    }
    proof {
        assert(bytes@.take(bytes@.len() as int) =~= bytes@);
    }
    h
}

/// The tokens of a text, as `tokenize` returns them.
pub open spec fn tokens(text: Seq<char>) -> Seq<Seq<char>> {
    words(text).map_values(|w: Seq<char>| lowercase(w))
}

/// The bucket among `dim` that a token hashes to.
pub open spec fn token_bucket(tok: Seq<char>, dim: usize) -> int {
    (fnv1a(vstd::utf8::encode_utf8(tok)) % (dim as u64)) as int
}

/// How many of `toks` hash to bucket `b` among `dim`.
pub open spec fn bucket_count(toks: Seq<Seq<char>>, dim: usize, b: int) -> nat
    decreases toks.len(),
{
    if toks.len() == 0 {
        0
    } else {
        bucket_count(toks.drop_last(), dim, b) + if token_bucket(toks.last(), dim) == b {
            1nat
        } else {
            0nat
        }
    }
}

/// The mock embedding of `text` over `dim` buckets: per bucket, how many of its tokens hash
/// there (the embedding is these counts as floats).
fn mock_vector(text: &str, dim: usize) -> (v: Vec<usize>)
    requires
        dim > 0,
    ensures
        v@.len() == dim,
        forall|b: int| 0 <= b < dim ==> #[trigger] v@[b] == bucket_count(tokens(text@), dim, b),
{
    let toks = tokenize(text);
    let ghost ts = tokens(text@);
    proof {
        assert(toks@.map_values(|t: String| t@) =~= ts);
    }
    let mut v: Vec<usize> = Vec::new();
    let mut z: usize = 0;
    while z < dim
        invariant
            z <= dim,
            v@.len() == z,
            forall|b: int| 0 <= b < z ==> #[trigger] v@[b] == 0,
        decreases dim - z,
    {
        v.push(0);
        z = z + 1;
    }
    let mut k: usize = 0;
    while k < toks.len()
        invariant
            dim > 0,
            k <= toks@.len(),
            toks@.map_values(|t: String| t@) == ts,
            v@.len() == dim,
            forall|b: int| 0 <= b < dim ==> #[trigger] v@[b] == bucket_count(ts.take(k as int), dim, b),
            forall|b: int| 0 <= b < dim ==> #[trigger] v@[b] <= k,
        decreases toks@.len() - k,
    {
        let h = fnv1a_of(toks[k].as_str());
        let b = (h % (dim as u64)) as usize;
        proof {
            assert(ts.take(k + 1).drop_last() =~= ts.take(k as int));
            assert(ts[k as int] == toks@[k as int]@);
            assert(b as int == token_bucket(ts[k as int], dim));
        }
        let c = v[b];
        v.set(b, c + 1);
        k = k + 1;
    }
    proof {
        assert(ts.take(toks@.len() as int) =~= ts);
    }
    v
}

/// Component `b` of the mock embedding of `toks` over `dim` buckets, as an `f32` bit pattern:
/// the bucket's count, which stops growing at `F32_EXACT_LIMIT` as an `f32` sum of ones does.
pub open spec fn mock_component(toks: Seq<Seq<char>>, dim: usize, b: int) -> u32 {
    let c = bucket_count(toks, dim, b);
    f32_bits(if c < F32_EXACT_LIMIT { c } else { F32_EXACT_LIMIT as nat }) as u32
}

/// A deterministic embedder for tests: each token of a text adds one to the bucket among
/// `dim` that its FNV-1a hash picks, so texts that share tokens point the same way. It counts
/// its calls and keeps every text it embedded.
pub struct MockEmbedder {
    pub dim: usize,
    pub fail: bool,
    pub calls: usize,
    pub seen: Vec<String>,
    /// The batches asked for through `Embedder`.
    pub asked: Ghost<Seq<Seq<Seq<char>>>>,
    /// What each of them answered.
    pub answered: Ghost<Seq<Result<Seq<Seq<u32>>, EmbedError>>>,
}

impl MockEmbedder {
    /// An embedder over `dim` buckets.
    pub fn new(dim: usize) -> (r: MockEmbedder)
        requires
            dim > 0,
        ensures
            r.dim == dim,
            !r.fail,
            r.calls == 0,
            r.seen@.len() == 0,
            r.batches() == Seq::<Seq<Seq<char>>>::empty(),
            r.outcomes() == Seq::<Result<Seq<Seq<u32>>, EmbedError>>::empty(),
    {
        MockEmbedder { dim, fail: false, calls: 0, seen: Vec::new(), asked: Ghost(Seq::empty()), answered: Ghost(Seq::empty()) }
    }

    /// An embedder over `dim` buckets whose every call fails.
    pub fn failing(dim: usize) -> (r: MockEmbedder)
        requires
            dim > 0,
        ensures
            r.dim == dim,
            r.fail,
            r.calls == 0,
            r.seen@.len() == 0,
            r.batches() == Seq::<Seq<Seq<char>>>::empty(),
            r.outcomes() == Seq::<Result<Seq<Seq<u32>>, EmbedError>>::empty(),
    {
        MockEmbedder { dim, fail: true, calls: 0, seen: Vec::new(), asked: Ghost(Seq::empty()), answered: Ghost(Seq::empty()) }
    }

    /// The bucket counts of each text, in order (see `mock_vector`), or the scripted failure:
    /// what `embed` answers before the counts become `f32`s.
    pub fn bucket_counts(&mut self, texts: &Vec<String>) -> (r: Result<Vec<Vec<usize>>, EmbedError>)
        requires
            old(self).dim > 0,
        ensures
            final(self).dim == old(self).dim,
            final(self).fail == old(self).fail,
            final(self).calls == (if old(self).calls == usize::MAX { 0 } else { (old(self).calls + 1) as usize }),
            old(self).fail ==> (r matches Err(EmbedError::Provider(m)) && m@ == "mock failure"@)
                && final(self).seen@ == old(self).seen@,
            !old(self).fail ==> (r matches Ok(vs) && vs@.len() == texts@.len() && forall|i: int|
                0 <= i < texts@.len() ==> (#[trigger] vs@[i])@.len() == old(self).dim && forall|b: int|
                    0 <= b < old(self).dim ==> vs@[i]@[b] == bucket_count(tokens(texts@[i]@), old(self).dim, b))
                && final(self).seen@ == old(self).seen@ + texts@,
    {
        self.calls = self.calls.wrapping_add(1);
        if self.fail {
            return Err(EmbedError::Provider(string_of("mock failure")));
        }
        let ghost seen0 = self.seen@;
        let ghost calls1 = self.calls;
        let mut vs: Vec<Vec<usize>> = Vec::new();
        let mut i: usize = 0;
        while i < texts.len()
            invariant
                self.dim > 0,
                self.dim == old(self).dim,
                self.fail == old(self).fail,
                self.calls == calls1,
                i <= texts@.len(),
                self.seen@ == seen0 + texts@.take(i as int),
                vs@.len() == i,
                forall|j: int| 0 <= j < i ==> (#[trigger] vs@[j])@.len() == self.dim && forall|b: int|
                    0 <= b < self.dim ==> vs@[j]@[b] == bucket_count(tokens(texts@[j]@), self.dim, b),
            decreases texts@.len() - i,
        {
            self.seen.push(texts[i].clone());
            vs.push(mock_vector(texts[i].as_str(), self.dim));
            proof {
                assert(seen0 + texts@.take(i + 1) =~= (seen0 + texts@.take(i as int)).push(texts@[i as int]));
            }
            i = i + 1;
        }
        proof {
            assert(texts@.take(texts@.len() as int) =~= texts@);
        }
        Ok(vs)
    }

    /// The vector of one text as `f32` bit patterns: each bucket's count, where a count
    /// stops growing at `F32_EXACT_LIMIT` (adding one to that `f32` leaves it unchanged).
    fn bits_vector(&self, text: &str) -> (v: Vec<u32>)
        ensures
            v@.len() == self.dim,
            forall|b: int| 0 <= b < self.dim ==> #[trigger] v@[b] == mock_component(tokens(text@), self.dim, b),
    {
        let mut v: Vec<u32> = Vec::new();
        if self.dim == 0 {
            return v;
        }
        let counts = mock_vector(text, self.dim);
        let mut b: usize = 0;
        while b < counts.len()
            invariant
                b <= counts@.len(),
                counts@.len() == self.dim,
                self.dim > 0,
                v@.len() == b,
                forall|j: int| 0 <= j < self.dim ==> #[trigger] counts@[j] == bucket_count(tokens(text@), self.dim, j),
                forall|j: int| 0 <= j < b ==> #[trigger] v@[j] == mock_component(tokens(text@), self.dim, j),
            decreases counts@.len() - b,
        {
            let c: u32 = if counts[b] < F32_EXACT_LIMIT as usize { counts[b] as u32 } else { F32_EXACT_LIMIT };
            v.push(f32_bits_of_count(c));
            b = b + 1;
        }
        v
    }
}

impl Embedder for MockEmbedder {
    open spec fn batches(&self) -> Seq<Seq<Seq<char>>> {
        self.asked@
    }

    open spec fn outcomes(&self) -> Seq<Result<Seq<Seq<u32>>, EmbedError>> {
        self.answered@
    }

    /// One vector per text, in order, each `dim` components long, or the scripted failure.
    fn embed(&mut self, texts: &Vec<String>) -> (r: Result<Vec<Vec<u32>>, EmbedError>)
        ensures
            final(self).dim == old(self).dim,
            final(self).fail == old(self).fail,
            final(self).calls == (if old(self).calls == usize::MAX { 0 } else { (old(self).calls + 1) as usize }),
            old(self).fail ==> (r matches Err(EmbedError::Provider(m)) && m@ == "mock failure"@)
                && final(self).seen@ == old(self).seen@,
            !old(self).fail ==> (r matches Ok(vs) && vs@.len() == texts@.len() && forall|i: int|
                0 <= i < texts@.len() ==> (#[trigger] vs@[i])@.len() == old(self).dim && forall|b: int|
                    0 <= b < old(self).dim ==> vs@[i]@[b] == mock_component(tokens(texts@[i]@), old(self).dim, b))
                && final(self).seen@ == old(self).seen@ + texts@,
    {
        self.calls = self.calls.wrapping_add(1);
        proof {
            self.asked@ = self.asked@.push(texts_of(texts@));
        }
        if self.fail {
            let r = Err(EmbedError::Provider(string_of("mock failure")));
            proof {
                self.answered@ = self.answered@.push(embed_outcome(r));
            }
            return r;
        }
        let ghost seen0 = self.seen@;
        let mut vs: Vec<Vec<u32>> = Vec::new();
        let mut i: usize = 0;
        while i < texts.len()
            invariant
                self.dim == old(self).dim,
                self.fail == old(self).fail,
                self.calls == (if old(self).calls == usize::MAX { 0 } else { (old(self).calls + 1) as usize }),
                self.asked@ == old(self).asked@.push(texts_of(texts@)),
                self.answered@ == old(self).answered@,
                i <= texts@.len(),
                self.seen@ == seen0 + texts@.take(i as int),
                vs@.len() == i,
                forall|j: int| 0 <= j < i ==> (#[trigger] vs@[j])@.len() == self.dim && forall|b: int|
                    0 <= b < self.dim ==> vs@[j]@[b] == mock_component(tokens(texts@[j]@), self.dim, b),
            decreases texts@.len() - i,
        {
            self.seen.push(texts[i].clone());
            vs.push(self.bits_vector(texts[i].as_str()));
            proof {
                assert(seen0 + texts@.take(i + 1) =~= (seen0 + texts@.take(i as int)).push(texts@[i as int]));
            }
            i = i + 1;
        }
        proof {
            assert(texts@.take(texts@.len() as int) =~= texts@);
        }
        let r = Ok(vs);
        proof {
            self.answered@ = self.answered@.push(embed_outcome(r));
        }
        r
    }

    fn dim(&self) -> (r: usize)
        ensures
            r == self.dim,
    {
        self.dim
    }
}

/// How the HTTP exchange of one embeddings request ended.
pub enum EmbeddingsExchange {
    /// The request could not be sent or got no answer, with the transport's error.
    Unsent(String),
    /// The endpoint answered a status other than success (e.g. `500 Internal Server Error`),
    /// with this body.
    Refused { status: String, body: String },
    /// A success whose body could not be decoded, with the decoder's error.
    Undecodable(String),
    /// A success decoded: each entry's `index` and the length of its `embedding`, as sent.
    Decoded { indices: Vec<usize>, dims: Vec<usize> },
}

/// What a request to embed `n` texts answers (the position, in the decoded entries, of each
/// input's vector), given how its exchange ended; `None` when no request was sent, which is
/// exactly when there is nothing to embed (see `embeddings_request`): then the answer is no
/// vectors. A failed exchange is a provider error saying so; a decoded one is put in input
/// order (see `arranged`).
pub fn embeddings_answer(n: usize, expected: Option<usize>, exchange: Option<EmbeddingsExchange>) -> (r: Result<Vec<usize>, EmbedError>)
    requires
        n == 0 <==> exchange is None,
        exchange matches Some(EmbeddingsExchange::Decoded { indices, dims }) ==> indices@.len() == dims@.len(),
    ensures
        match exchange {
            None => (r matches Ok(order) && order@.len() == 0),
            Some(EmbeddingsExchange::Unsent(e)) => r matches Err(EmbedError::Provider(m)) && m@ == "request failed: "@ + e@,
            Some(EmbeddingsExchange::Refused { status, body }) => r matches Err(EmbedError::Provider(m)) && m@
                == "HTTP "@ + status@ + " from "@ + "embeddings"@ + " endpoint: "@ + (if body@.len() <= 500 {
                body@
            } else {
                body@.take(500)
            }),
            Some(EmbeddingsExchange::Undecodable(e)) => r matches Err(EmbedError::Provider(m)) && m@ == "decode failed: "@ + e@,
            Some(EmbeddingsExchange::Decoded { indices, dims }) => arranged(indices@, dims@, n as nat, expected, r),
        },
{
    match exchange {
        None => {
            let none: Vec<usize> = Vec::new();
            proof {
                assert(none@.len() == 0);
            }
            Ok(none)
        },
        Some(EmbeddingsExchange::Unsent(e)) => {
            let mut m = string_of("request failed: ");
            push_str(&mut m, e.as_str());
            Err(EmbedError::Provider(m))
        },
        Some(EmbeddingsExchange::Refused { status, body }) => Err(
            EmbedError::Provider(http_failure(status.as_str(), "embeddings", body.as_str())),
        ),
        Some(EmbeddingsExchange::Undecodable(e)) => {
            let mut m = string_of("decode failed: ");
            push_str(&mut m, e.as_str());
            Err(EmbedError::Provider(m))
        },
        Some(EmbeddingsExchange::Decoded { indices, dims }) => arrange_embeddings(&indices, &dims, n, expected),
    }
}

} // verus!
