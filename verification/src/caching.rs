//! The embedding cache: vectors memoized by the text they embed, in two bounded generations
//! (`current` and `previous`). A hit in `previous` is promoted back into `current`; when
//! `current` is full and a new text arrives, it becomes `previous` (the old `previous` is
//! dropped) and a fresh `current` starts, so memory stays bounded however many texts are
//! embedded. Vectors are held as the bit patterns of their `f32` components.

use vstd::prelude::*;
use crate::text::{decimal, str_eq, string_of, push_str};
use crate::observe::push_decimal;
use crate::retrieval::{EmbedError, Embedder};

verus! {

/// Most entries one generation holds.
pub const CACHE_GEN_CAP: usize = 2048;

/// A text with its cached vector.
pub type Slot = (String, Vec<u32>);

/// The map an association list of distinct keys holds.
pub open spec fn assoc(s: Seq<Slot>) -> Map<Seq<char>, Seq<u32>>
    decreases s.len(),
{
    if s.len() == 0 {
        Map::empty()
    } else {
        assoc(s.drop_last()).insert(s.last().0@, s.last().1@)
    }
}

/// No two slots share a text.
pub open spec fn distinct_keys(s: Seq<Slot>) -> bool {
    forall|i: int, j: int| 0 <= i < j < s.len() ==> s[i].0@ != s[j].0@
}

proof fn lemma_assoc(s: Seq<Slot>)
    requires
        distinct_keys(s),
    ensures
        assoc(s).dom().finite(),
        assoc(s).dom().len() == s.len(),
        forall|i: int| 0 <= i < s.len() ==> #[trigger] assoc(s).dom().contains(s[i].0@) && assoc(s)[s[i].0@] == s[i].1@,
        forall|k: Seq<char>| #[trigger] assoc(s).dom().contains(k) ==> exists|i: int| 0 <= i < s.len() && s[i].0@ == k,
    decreases s.len(),
{
    if s.len() > 0 {
        let p = s.drop_last();
        assert(distinct_keys(p));
        lemma_assoc(p);
        assert(!assoc(p).dom().contains(s.last().0@)) by {
            if assoc(p).dom().contains(s.last().0@) {
                let i = choose|i: int| 0 <= i < p.len() && p[i].0@ == s.last().0@;
                assert(s[i].0@ == s[s.len() - 1].0@);
            }
        }
        assert forall|i: int| 0 <= i < s.len() implies #[trigger] assoc(s).dom().contains(s[i].0@) && assoc(s)[s[i].0@] == s[i].1@ by {
            if i < s.len() - 1 {
                assert(p[i] == s[i]);
                assert(s[i].0@ != s.last().0@);
            }
        }
        assert forall|k: Seq<char>| #[trigger] assoc(s).dom().contains(k) implies exists|i: int| 0 <= i < s.len() && s[i].0@ == k by {
            if k != s.last().0@ {
                assert(assoc(p).dom().contains(k));
                let i = choose|i: int| 0 <= i < p.len() && p[i].0@ == k;
                assert(s[i] == p[i]);
            } else {
                assert(s[s.len() - 1].0@ == k);
            }
        }
    }
}

/// Two association lists of distinct keys with the same texts and vectors hold the same map.
proof fn lemma_assoc_same(s: Seq<Slot>, m: Map<Seq<char>, Seq<u32>>)
    requires
        distinct_keys(s),
        forall|i: int| 0 <= i < s.len() ==> #[trigger] m.dom().contains(s[i].0@) && m[s[i].0@] == s[i].1@,
        forall|k: Seq<char>| #[trigger] m.dom().contains(k) ==> exists|i: int| 0 <= i < s.len() && s[i].0@ == k,
    ensures
        assoc(s) == m,
{
    lemma_assoc(s);
    assert forall|k: Seq<char>| #[trigger] assoc(s).dom().contains(k) == m.dom().contains(k) by {
        if assoc(s).dom().contains(k) {
            let i = choose|i: int| 0 <= i < s.len() && s[i].0@ == k;
            assert(m.dom().contains(s[i].0@));
        }
        if m.dom().contains(k) {
            let i = choose|i: int| 0 <= i < s.len() && s[i].0@ == k;
            assert(assoc(s).dom().contains(s[i].0@));
        }
    }
    assert forall|k: Seq<char>| #[trigger] assoc(s).dom().contains(k) implies assoc(s)[k] == m[k] by {
        let i = choose|i: int| 0 <= i < s.len() && s[i].0@ == k;
        assert(assoc(s)[s[i].0@] == s[i].1@);
        assert(m[s[i].0@] == s[i].1@);
    }
    assert(assoc(s) =~= m);
}

/// A copy of a vector.
fn copy_vector(v: &Vec<u32>) -> (r: Vec<u32>)
    ensures
        r@ == v@,
{
    let mut r: Vec<u32> = Vec::new();
    let mut i: usize = 0;
    while i < v.len()
        invariant
            i <= v@.len(),
            r@ == v@.take(i as int),
        decreases v@.len() - i,
    {
        r.push(v[i]);
        proof {
            assert(r@ =~= v@.take(i + 1));
        }
        i = i + 1;
    }
    proof {
        assert(v@.take(v@.len() as int) =~= v@);
    }
    r
}

/// Where the slot of text `k` is.
fn position(s: &Vec<Slot>, k: &str) -> (p: Option<usize>)
    ensures
        match p {
            Some(i) => i < s@.len() && s@[i as int].0@ == k@,
            None => forall|i: int| 0 <= i < s@.len() ==> (#[trigger] s@[i]).0@ != k@,
        },
{
    let mut i: usize = 0;
    while i < s.len()
        invariant
            i <= s@.len(),
            forall|j: int| 0 <= j < i ==> (#[trigger] s@[j]).0@ != k@,
        decreases s@.len() - i,
    {
        if str_eq(s[i].0.as_str(), k) {
            return Some(i);
        }
        i = i + 1;
    }
    None
}

/// Sets text `k` to `v` in the association list.
fn put(s: &mut Vec<Slot>, k: String, v: Vec<u32>)
    requires
        distinct_keys(old(s)@),
    ensures
        distinct_keys(final(s)@),
        assoc(final(s)@) == assoc(old(s)@).insert(k@, v@),
        final(s)@.len() == if assoc(old(s)@).dom().contains(k@) { old(s)@.len() } else { old(s)@.len() + 1 },
{
    proof {
        lemma_assoc(s@);
    }
    let ghost kv = k@;
    let ghost vv = v@;
    match position(s, k.as_str()) {
        Some(i) => {
            let ghost before = s@;
            s.set(i, (k, v));
            proof {
                let m = assoc(before).insert(kv, vv);
                assert forall|a: int, b: int| 0 <= a < b < s@.len() implies s@[a].0@ != s@[b].0@ by {
                    if a != i && b != i {
                        assert(s@[a] == before[a] && s@[b] == before[b]);
                    } else if a == i {
                        assert(s@[b] == before[b]);
                    } else {
                        assert(s@[a] == before[a]);
                    }
                }
                assert forall|j: int| 0 <= j < s@.len() implies #[trigger] m.dom().contains(s@[j].0@) && m[s@[j].0@] == s@[j].1@ by {
                    if j != i {
                        assert(s@[j] == before[j]);
                        assert(assoc(before).dom().contains(before[j].0@));
                    }
                }
                assert forall|q: Seq<char>| #[trigger] m.dom().contains(q) implies exists|j: int| 0 <= j < s@.len() && s@[j].0@ == q by {
                    if q == kv {
                        assert(s@[i as int].0@ == q);
                    } else {
                        assert(assoc(before).dom().contains(q));
                        let j = choose|j: int| 0 <= j < before.len() && before[j].0@ == q;
                        assert(s@[j] == before[j]);
                    }
                }
                lemma_assoc_same(s@, m);
                assert(assoc(before).dom().contains(before[i as int].0@));
            }
        },
        None => {
            let ghost before = s@;
            s.push((k, v));
            proof {
                assert(s@.drop_last() == before);
                assert forall|a: int, b: int| 0 <= a < b < s@.len() implies s@[a].0@ != s@[b].0@ by {
                    if b < before.len() {
                        assert(s@[a] == before[a] && s@[b] == before[b]);
                    } else {
                        assert(s@[a] == before[a]);
                    }
                }
                if assoc(before).dom().contains(kv) {
                    let j = choose|j: int| 0 <= j < before.len() && before[j].0@ == kv;
                }
            }
        },
    }
}

/// Removes slot `i` from the association list.
fn take_slot(s: &mut Vec<Slot>, i: usize) -> (r: Slot)
    requires
        distinct_keys(old(s)@),
        i < old(s)@.len(),
    ensures
        r == old(s)@[i as int],
        distinct_keys(final(s)@),
        final(s)@.len() == old(s)@.len() - 1,
        assoc(final(s)@) == assoc(old(s)@).remove(r.0@),
{
    proof {
        lemma_assoc(s@);
    }
    let ghost before = s@;
    let r = s.remove(i);
    proof {
        let m = assoc(before).remove(r.0@);
        assert forall|a: int, b: int| 0 <= a < b < s@.len() implies s@[a].0@ != s@[b].0@ by {
            let a2 = if a < i { a } else { a + 1 };
            let b2 = if b < i { b } else { b + 1 };
            assert(s@[a] == before[a2] && s@[b] == before[b2]);
        }
        assert forall|j: int| 0 <= j < s@.len() implies #[trigger] m.dom().contains(s@[j].0@) && m[s@[j].0@] == s@[j].1@ by {
            let j2 = if j < i { j } else { j + 1 };
            assert(s@[j] == before[j2]);
            assert(assoc(before).dom().contains(before[j2].0@));
            assert(before[j2].0@ != before[i as int].0@);
        }
        assert forall|q: Seq<char>| #[trigger] m.dom().contains(q) implies exists|j: int| 0 <= j < s@.len() && s@[j].0@ == q by {
            assert(assoc(before).dom().contains(q));
            let j2 = choose|j: int| 0 <= j < before.len() && before[j].0@ == q;
            assert(j2 != i);
            let j = if j2 < i { j2 } else { j2 - 1 };
            assert(s@[j] == before[j2]);
        }
        lemma_assoc_same(s@, m);
    }
    r
}

/// The two generations after storing `k -> v`: when `current` is full and lacks `k` it
/// becomes `previous` (the old `previous` is dropped) and `current` starts over with `k`.
pub open spec fn after_insert(
    cur: Map<Seq<char>, Seq<u32>>,
    prev: Map<Seq<char>, Seq<u32>>,
    k: Seq<char>,
    v: Seq<u32>,
) -> (Map<Seq<char>, Seq<u32>>, Map<Seq<char>, Seq<u32>>) {
    if cur.dom().len() >= CACHE_GEN_CAP && !cur.dom().contains(k) {
        (Map::empty().insert(k, v), cur)
    } else {
        (cur.insert(k, v), prev)
    }
}

/// The two generations after looking up `k`, and what the lookup found: `current` first; a
/// hit in `previous` moves the entry back into `current`.
pub open spec fn after_get(
    cur: Map<Seq<char>, Seq<u32>>,
    prev: Map<Seq<char>, Seq<u32>>,
    k: Seq<char>,
) -> (Map<Seq<char>, Seq<u32>>, Map<Seq<char>, Seq<u32>>, Option<Seq<u32>>) {
    if cur.dom().contains(k) {
        (cur, prev, Some(cur[k]))
    } else if prev.dom().contains(k) {
        let (c, p) = after_insert(cur, prev.remove(k), k, prev[k]);
        (c, p, Some(prev[k]))
    } else {
        (cur, prev, None)
    }
}

/// Two-generation bounded cache of vectors keyed by their text.
pub struct GenCache {
    current: Vec<Slot>,
    previous: Vec<Slot>,
}

impl GenCache {
    #[verifier::type_invariant]
    spec fn well_formed(&self) -> bool {
        &&& distinct_keys(self.current@)
        &&& distinct_keys(self.previous@)
        &&& self.current@.len() <= CACHE_GEN_CAP
        &&& self.previous@.len() <= CACHE_GEN_CAP
    }

    /// The current generation.
    pub closed spec fn current(&self) -> Map<Seq<char>, Seq<u32>> {
        assoc(self.current@)
    }

    /// The previous generation.
    pub closed spec fn previous(&self) -> Map<Seq<char>, Seq<u32>> {
        assoc(self.previous@)
    }

    /// An empty cache.
    pub fn new() -> (r: GenCache)
        ensures
            r.current() == Map::<Seq<char>, Seq<u32>>::empty(),
            r.previous() == Map::<Seq<char>, Seq<u32>>::empty(),
    {
        GenCache { current: Vec::new(), previous: Vec::new() }
    }

    /// How many entries the two generations hold together.
    pub fn len(&self) -> (r: usize)
        ensures
            r == self.current().dom().len() + self.previous().dom().len(),
    {
        proof {
            use_type_invariant(self);
            lemma_assoc(self.current@);
            lemma_assoc(self.previous@);
        }
        self.current.len() + self.previous.len()
    }

    /// Stores `key -> value` (see `after_insert`).
    pub fn insert(&mut self, key: String, value: Vec<u32>)
        ensures
            (final(self).current(), final(self).previous()) == after_insert(
                old(self).current(),
                old(self).previous(),
                key@,
                value@,
            ),
            final(self).current().dom().len() + final(self).previous().dom().len() <= 2 * CACHE_GEN_CAP,
    {
        proof {
            use_type_invariant(&*self);
            lemma_assoc(self.current@);
            lemma_assoc(self.previous@);
        }
        let ghost kv = key@;
        let full = self.current.len() >= CACHE_GEN_CAP && position(&self.current, key.as_str()).is_none();
        proof {
            if self.current@.len() >= CACHE_GEN_CAP && !full {
                let i = choose|i: int| 0 <= i < self.current@.len() && self.current@[i].0@ == kv;
                assert(self.current().dom().contains(self.current@[i].0@));
            }
            if full {
                assert(!self.current().dom().contains(kv)) by {
                    if self.current().dom().contains(kv) {
                        let i = choose|i: int| 0 <= i < self.current@.len() && self.current@[i].0@ == kv;
                    }
                }
            }
        }
        let mut cur: Vec<Slot> = Vec::new();
        std::mem::swap(&mut cur, &mut self.current);
        let mut prev: Vec<Slot> = Vec::new();
        std::mem::swap(&mut prev, &mut self.previous);
        if full {
            prev = cur;
            cur = Vec::new();
        }
        proof {
            lemma_assoc(cur@);
        }
        put(&mut cur, key, value);
        proof {
            lemma_assoc(cur@);
            lemma_assoc(prev@);
        }
        self.current = cur;
        self.previous = prev;
    }

    /// Looks `key` up (see `after_get`), promoting a `previous` hit into `current`.
    pub fn get(&mut self, key: &str) -> (r: Option<Vec<u32>>)
        ensures
            (final(self).current(), final(self).previous(), match r {
                Some(v) => Some(v@),
                None => None,
            }) == after_get(old(self).current(), old(self).previous(), key@),
            final(self).current().dom().len() + final(self).previous().dom().len() <= 2 * CACHE_GEN_CAP,
    {
        proof {
            use_type_invariant(&*self);
            lemma_assoc(self.current@);
            lemma_assoc(self.previous@);
        }
        match position(&self.current, key) {
            Some(i) => {
                proof {
                    assert(self.current().dom().contains(self.current@[i as int].0@));
                }
                return Some(copy_vector(&self.current[i].1));
            },
            None => {
                proof {
                    assert(!self.current().dom().contains(key@)) by {
                        if self.current().dom().contains(key@) {
                            let i = choose|i: int| 0 <= i < self.current@.len() && self.current@[i].0@ == key@;
                        }
                    }
                }
            },
        }
        match position(&self.previous, key) {
            Some(i) => {
                proof {
                    assert(self.previous().dom().contains(self.previous@[i as int].0@));
                }
                let mut prev: Vec<Slot> = Vec::new();
                std::mem::swap(&mut prev, &mut self.previous);
                let slot = take_slot(&mut prev, i);
                self.previous = prev;
                let v = copy_vector(&slot.1);
                self.insert(slot.0, slot.1);
                Some(v)
            },
            None => {
                proof {
                    assert(!self.previous().dom().contains(key@)) by {
                        if self.previous().dom().contains(key@) {
                            let i = choose|i: int| 0 <= i < self.previous@.len() && self.previous@[i].0@ == key@;
                        }
                    }
                }
                None
            },
        }
    }
}


/// The texts of a list of strings.
pub open spec fn texts_of(v: Seq<String>) -> Seq<Seq<char>> {
    v.map_values(|s: String| s@)
}

/// The vectors of a list of vectors.
pub open spec fn vectors_of(v: Seq<Vec<u32>>) -> Seq<Seq<u32>> {
    v.map_values(|x: Vec<u32>| x@)
}

/// The first pass of a request to embed `texts`, from generations `c`: the generations after
/// the lookups, the vectors found in the cache, and the texts left to embed (each once, in
/// order of first appearance). A text already found is not looked up again.
pub open spec fn planned(
    c: (Map<Seq<char>, Seq<u32>>, Map<Seq<char>, Seq<u32>>),
    texts: Seq<Seq<char>>,
) -> ((Map<Seq<char>, Seq<u32>>, Map<Seq<char>, Seq<u32>>), Map<Seq<char>, Seq<u32>>, Seq<Seq<char>>)
    decreases texts.len(),
{
    if texts.len() == 0 {
        (c, Map::empty(), Seq::empty())
    } else {
        let (c1, found, misses) = planned(c, texts.drop_last());
        let t = texts.last();
        if found.dom().contains(t) {
            (c1, found, misses)
        } else {
            let (cur, prev, hit) = after_get(c1.0, c1.1, t);
            match hit {
                Some(v) => ((cur, prev), found.insert(t, v), misses),
                None => ((cur, prev), found, if misses.contains(t) {
                    misses
                } else {
                    misses.push(t)
                }),
            }
        }
    }
}

/// The generations after storing each of `ks` with its vector of `vs`, in order.
pub open spec fn filled(
    c: (Map<Seq<char>, Seq<u32>>, Map<Seq<char>, Seq<u32>>),
    ks: Seq<Seq<char>>,
    vs: Seq<Seq<u32>>,
) -> (Map<Seq<char>, Seq<u32>>, Map<Seq<char>, Seq<u32>>)
    decreases ks.len(),
{
    if ks.len() == 0 || vs.len() == 0 {
        c
    } else {
        let c1 = filled(c, ks.drop_last(), vs.drop_last());
        after_insert(c1.0, c1.1, ks.last(), vs.last())
    }
}

/// The vector answered for text `t`: the one found in the cache, else the one embedded for it.
pub open spec fn answer(
    found: Map<Seq<char>, Seq<u32>>,
    misses: Seq<Seq<char>>,
    vs: Seq<Seq<u32>>,
    t: Seq<char>,
) -> Seq<u32> {
    if found.dom().contains(t) {
        found[t]
    } else {
        vs[choose|k: int| 0 <= k < misses.len() && misses[k] == t]
    }
}

/// No text occurs twice.
pub open spec fn distinct_texts(v: Seq<String>) -> bool {
    forall|i: int, j: int| 0 <= i < j < v.len() ==> v[i]@ != v[j]@
}

proof fn lemma_planned(
    c: (Map<Seq<char>, Seq<u32>>, Map<Seq<char>, Seq<u32>>),
    texts: Seq<Seq<char>>,
)
    ensures
        ({
            let (c1, found, misses) = planned(c, texts);
            &&& forall|i: int, j: int| 0 <= i < j < misses.len() ==> misses[i] != misses[j]
            &&& forall|k: int| 0 <= k < misses.len() ==> !found.dom().contains(#[trigger] misses[k])
            &&& forall|j: int| 0 <= j < texts.len() ==> found.dom().contains(#[trigger] texts[j]) || misses.contains(texts[j])
            &&& forall|k: int| 0 <= k < misses.len() ==> texts.contains(#[trigger] misses[k])
        }),
    decreases texts.len(),
{
    if texts.len() > 0 {
        lemma_planned(c, texts.drop_last());
        assert forall|k: int| 0 <= k < planned(c, texts).2.len() implies texts.contains(#[trigger] planned(c, texts).2[k]) by {
            let m0 = planned(c, texts.drop_last()).2;
            if k < m0.len() {
                assert(planned(c, texts).2[k] == m0[k]);
                let w = choose|w: int| 0 <= w < texts.drop_last().len() && texts.drop_last()[w] == m0[k];
                assert(texts[w] == m0[k]);
            } else {
                assert(texts[texts.len() - 1] == planned(c, texts).2[k]);
            }
        }
        let (c1, found, misses) = planned(c, texts.drop_last());
        let t = texts.last();
        let (c2, found2, misses2) = planned(c, texts);
        assert forall|j: int| 0 <= j < texts.len() implies found2.dom().contains(#[trigger] texts[j]) || misses2.contains(texts[j]) by {
            if j < texts.len() - 1 {
                assert(texts.drop_last()[j] == texts[j]);
                if misses.contains(texts[j]) {
                    let k = choose|k: int| 0 <= k < misses.len() && misses[k] == texts[j];
                    if !found.dom().contains(t) && after_get(c1.0, c1.1, t).2 is None && !misses.contains(t) {
                        assert(misses2[k] == texts[j]);
                    }
                }
            } else {
                if !found.dom().contains(t) && after_get(c1.0, c1.1, t).2 is None {
                    if !misses.contains(t) {
                        assert(misses2[misses2.len() - 1] == t);
                    }
                }
            }
        }
        assert forall|k: int| 0 <= k < misses2.len() implies !found2.dom().contains(#[trigger] misses2[k]) by {
            if k < misses.len() {
                assert(misses2[k] == misses[k]);
                if !found.dom().contains(t) && after_get(c1.0, c1.1, t).2 is Some {
                    if misses[k] == t {
                        assert(misses.contains(t));
                        assert(false) by {
                            lemma_planned_misses_not_cached(c, texts.drop_last(), k);
                        }
                    }
                }
            }
        }
    }
}

/// A text left to embed was not in the cache when the first pass reached its last lookup;
/// looking it up again from where the pass ended misses too.
proof fn lemma_planned_misses_not_cached(
    c: (Map<Seq<char>, Seq<u32>>, Map<Seq<char>, Seq<u32>>),
    texts: Seq<Seq<char>>,
    k: int,
)
    requires
        0 <= k < planned(c, texts).2.len(),
    ensures
        ({
            let (c1, found, misses) = planned(c, texts);
            !c1.0.dom().contains(misses[k]) && !c1.1.dom().contains(misses[k])
        }),
    decreases texts.len(),
{
    if texts.len() > 0 {
        let (c0, found0, misses0) = planned(c, texts.drop_last());
        let t = texts.last();
        let (c1, found, misses) = planned(c, texts);
        if k < misses0.len() {
            lemma_planned_misses_not_cached(c, texts.drop_last(), k);
            assert(misses[k] == misses0[k]);
            if !found0.dom().contains(t) {
                let (cur, prev, hit) = after_get(c0.0, c0.1, t);
                if hit is Some {
                    assert(t != misses0[k]);
                    if c0.0.dom().contains(t) {
                    } else {
                        assert(c0.1.dom().contains(t));
                        if c0.0.dom().len() >= CACHE_GEN_CAP && !c0.0.dom().contains(t) {
                        } else {
                        }
                    }
                }
            }
        }
    }
}

/// The embedding requests of an `Embedder`, memoized by text in a `GenCache`. A request runs
/// in two steps around the one call to the embedder it wraps: `plan` finds what the cache
/// holds and which texts are left to embed, `finish` stores what the embedder returned for
/// those and puts the answer together in the order of the request.
pub struct CachingEmbedder {
    cache: GenCache,
}

/// What the first step of a request found: the vectors the cache held, and the texts left to
/// embed (each once).
pub struct EmbedPlan {
    pub found: Vec<Slot>,
    pub misses: Vec<String>,
}

impl CachingEmbedder {
    /// The cache's generations.
    pub closed spec fn generations(&self) -> (Map<Seq<char>, Seq<u32>>, Map<Seq<char>, Seq<u32>>) {
        (self.cache.current(), self.cache.previous())
    }

    /// An embedder with an empty cache.
    pub fn new() -> (r: CachingEmbedder)
        ensures
            r.generations() == (Map::<Seq<char>, Seq<u32>>::empty(), Map::<Seq<char>, Seq<u32>>::empty()),
    {
        CachingEmbedder { cache: GenCache::new() }
    }

    /// How many texts the cache holds.
    pub fn len(&self) -> (r: usize)
        ensures
            r == self.generations().0.dom().len() + self.generations().1.dom().len(),
    {
        self.cache.len()
    }

    /// The first step of a request to embed `texts` (see `planned`).
    pub fn plan(&mut self, texts: &Vec<String>) -> (p: EmbedPlan)
        ensures
            ({
                let (c, found, misses) = planned(old(self).generations(), texts_of(texts@));
                &&& final(self).generations() == c
                &&& assoc(p.found@) == found
                &&& texts_of(p.misses@) == misses
            }),
            distinct_keys(p.found@),
            distinct_texts(p.misses@),
            forall|j: int| 0 <= j < texts@.len() ==> assoc(p.found@).dom().contains(#[trigger] texts@[j]@)
                || texts_of(p.misses@).contains(texts@[j]@),
            forall|k: int| 0 <= k < p.misses@.len() ==> !assoc(p.found@).dom().contains(#[trigger] p.misses@[k]@),
            forall|k: int| 0 <= k < p.misses@.len() ==> texts_of(texts@).contains(#[trigger] p.misses@[k]@),
    {
        let ghost c0 = self.generations();
        let ghost tv = texts_of(texts@);
        let mut found: Vec<Slot> = Vec::new();
        let mut misses: Vec<String> = Vec::new();
        let mut i: usize = 0;
        while i < texts.len()
            invariant
                i <= texts@.len(),
                tv == texts_of(texts@),
                distinct_keys(found@),
                planned(c0, tv.take(i as int)) == (self.generations(), assoc(found@), texts_of(misses@)),
            decreases texts@.len() - i,
        {
            let t = &texts[i];
            proof {
                assert(tv.take(i + 1).drop_last() =~= tv.take(i as int));
                assert(tv.take(i + 1).last() == t@);
                lemma_assoc(found@);
            }
            match position(&found, t.as_str()) {
                Some(_) => {},
                None => {
                    proof {
                        assert(!assoc(found@).dom().contains(t@)) by {
                            if assoc(found@).dom().contains(t@) {
                                let j = choose|j: int| 0 <= j < found@.len() && found@[j].0@ == t@;
                            }
                        }
                    }
                    match self.cache.get(t.as_str()) {
                        Some(v) => {
                            let ghost before = found@;
                            found.push((t.clone(), v));
                            proof {
                                assert(found@.drop_last() == before);
                                assert forall|a: int, b: int| 0 <= a < b < found@.len() implies found@[a].0@ != found@[b].0@ by {
                                    if b < before.len() {
                                        assert(found@[a] == before[a] && found@[b] == before[b]);
                                    } else {
                                        assert(found@[a] == before[a]);
                                        assert(assoc(before).dom().contains(before[a].0@));
                                    }
                                }
                            }
                        },
                        None => {
                            if !self.contains_text(&misses, t.as_str()) {
                                misses.push(t.clone());
                                proof {
                                    assert(texts_of(misses@) =~= texts_of(misses@.drop_last()).push(t@));
                                }
                            }
                        },
                    }
                },
            }
            i = i + 1;
        }
        proof {
            assert(tv.take(texts@.len() as int) =~= tv);
            lemma_planned(c0, tv);
            lemma_assoc(found@);
            assert forall|a: int, b: int| 0 <= a < b < misses@.len() implies misses@[a]@ != misses@[b]@ by {
                assert(texts_of(misses@)[a] == misses@[a]@);
                assert(texts_of(misses@)[b] == misses@[b]@);
            }
            assert forall|j: int| 0 <= j < texts@.len() implies assoc(found@).dom().contains(#[trigger] texts@[j]@)
                || texts_of(misses@).contains(texts@[j]@) by {
                assert(tv[j] == texts@[j]@);
            }
            assert forall|k: int| 0 <= k < misses@.len() implies !assoc(found@).dom().contains(#[trigger] misses@[k]@) by {
                assert(texts_of(misses@)[k] == misses@[k]@);
            }
            assert forall|k: int| 0 <= k < misses@.len() implies tv.contains(#[trigger] misses@[k]@) by {
                assert(texts_of(misses@)[k] == misses@[k]@);
            }
        }
        EmbedPlan { found, misses }
    }

    /// Embeds `texts` through the cache: looks each text up, asks `inner` once for the texts
    /// it did not find (each once, in order of first appearance) and not at all when it found
    /// every one, stores what came back, and answers one vector per text in request order. An
    /// `inner` failure, or a count of vectors other than the count of texts asked, is the
    /// answer; the cache then keeps what the lookups left.
    pub fn embed<E: Embedder>(&mut self, inner: &mut E, texts: &Vec<String>) -> (r: Result<Vec<Vec<u32>>, EmbedError>)
        ensures
            ({
                let (c, found, misses) = planned(old(self).generations(), texts_of(texts@));
                if misses.len() == 0 {
                    &&& final(inner).batches() == old(inner).batches()
                    &&& final(inner).outcomes() == old(inner).outcomes()
                    &&& final(self).generations() == c
                    &&& r matches Ok(out) && out@.len() == texts@.len() && forall|j: int| 0 <= j < texts@.len()
                        ==> (#[trigger] out@[j])@ == found[texts@[j]@]
                } else {
                    &&& final(inner).batches() == old(inner).batches().push(misses)
                    &&& final(inner).outcomes().len() == old(inner).outcomes().len() + 1
                    &&& final(inner).outcomes().drop_last() == old(inner).outcomes()
                    &&& match final(inner).outcomes().last() {
                        Err(e) => r == Err::<Vec<Vec<u32>>, EmbedError>(e) && final(self).generations() == c,
                        Ok(vs) => if vs.len() != misses.len() {
                            (r matches Err(EmbedError::Provider(m)) && m@ == "embedder returned "@ + decimal(vs.len())
                                + " vectors for "@ + decimal(misses.len()) + " inputs"@)
                                && final(self).generations() == c
                        } else {
                            final(self).generations() == filled(c, misses, vs)
                                && (r matches Ok(out) && out@.len() == texts@.len() && forall|j: int| 0 <= j < texts@.len()
                                ==> (#[trigger] out@[j])@ == answer(found, misses, vs, texts@[j]@))
                        },
                    }
                }
            }),
    {
        let plan = self.plan(texts);
        if plan.misses.len() == 0 {
            proof {
                assert forall|j: int| 0 <= j < texts@.len() implies assoc(plan.found@).dom().contains(#[trigger] texts@[j]@) by {
                    assert(!texts_of(plan.misses@).contains(texts@[j]@));
                }
                assert(vectors_of(Seq::<Vec<u32>>::empty()) =~= Seq::<Seq<u32>>::empty());
                assert(texts_of(plan.misses@) =~= Seq::<Seq<char>>::empty());
            }
            let r = self.finish(texts, plan, Ok(Vec::new()));
            return r;
        }
        let embedded = inner.embed(&plan.misses);
        proof {
            assert(inner.outcomes().last() == crate::retrieval::embed_outcome(embedded));
            assert(inner.outcomes().drop_last() =~= old(inner).outcomes());
        }
        self.finish(texts, plan, embedded)
    }

    /// The second step: given what the wrapped embedder returned for the plan's texts left to
    /// embed (`Ok` of nothing when there were none), stores the new vectors and answers one
    /// vector per text of the request, in its order. A count of vectors other than the count
    /// of texts embedded is refused, and so is an embedder failure; the cache then keeps what
    /// it held.
    pub fn finish(
        &mut self,
        texts: &Vec<String>,
        plan: EmbedPlan,
        embedded: Result<Vec<Vec<u32>>, EmbedError>,
    ) -> (r: Result<Vec<Vec<u32>>, EmbedError>)
        requires
            distinct_keys(plan.found@),
            distinct_texts(plan.misses@),
            forall|j: int| 0 <= j < texts@.len() ==> assoc(plan.found@).dom().contains(#[trigger] texts@[j]@)
                || texts_of(plan.misses@).contains(texts@[j]@),
        ensures
            match embedded {
                Err(e) => r == Err::<Vec<Vec<u32>>, EmbedError>(e) && final(self).generations() == old(self).generations(),
                Ok(vs) => if vs@.len() != plan.misses@.len() {
                    (r matches Err(EmbedError::Provider(m)) && m@ == "embedder returned "@ + decimal(vs@.len() as nat)
                        + " vectors for "@ + decimal(plan.misses@.len() as nat) + " inputs"@)
                        && final(self).generations() == old(self).generations()
                } else {
                    final(self).generations() == filled(old(self).generations(), texts_of(plan.misses@), vectors_of(vs@))
                        && (r matches Ok(out) && out@.len() == texts@.len() && forall|j: int| 0 <= j < texts@.len()
                        ==> (#[trigger] out@[j])@ == answer(assoc(plan.found@), texts_of(plan.misses@), vectors_of(vs@), texts@[j]@))
                },
            },
    {
        let vs = match embedded {
            Err(e) => {
                return Err(e);
            },
            Ok(vs) => vs,
        };
        if vs.len() != plan.misses.len() {
            let mut m = string_of("embedder returned ");
            push_decimal(&mut m, vs.len() as u64);
            push_str(&mut m, " vectors for ");
            push_decimal(&mut m, plan.misses.len() as u64);
            push_str(&mut m, " inputs");
            return Err(EmbedError::Provider(m));
        }
        let ghost g0 = self.generations();
        let ghost mv = texts_of(plan.misses@);
        let ghost vv = vectors_of(vs@);
        let n = plan.misses.len();
        let mut k: usize = 0;
        while k < n
            invariant
                n == plan.misses@.len(),
                n == vs@.len(),
                mv == texts_of(plan.misses@),
                vv == vectors_of(vs@),
                k <= n,
                self.generations() == filled(g0, mv.take(k as int), vv.take(k as int)),
            decreases n - k,
        {
            proof {
                assert(mv.take(k + 1).drop_last() =~= mv.take(k as int));
                assert(vv.take(k + 1).drop_last() =~= vv.take(k as int));
            }
            self.cache.insert(plan.misses[k].clone(), copy_vector(&vs[k]));
            k = k + 1;
        }
        proof {
            assert(mv.take(n as int) =~= mv);
            assert(vv.take(n as int) =~= vv);
            lemma_assoc(plan.found@);
        }
        let ghost found = assoc(plan.found@);
        let mut out: Vec<Vec<u32>> = Vec::new();
        let mut j: usize = 0;
        while j < texts.len()
            invariant
                j <= texts@.len(),
                n == plan.misses@.len(),
                n == vs@.len(),
                mv == texts_of(plan.misses@),
                vv == vectors_of(vs@),
                found == assoc(plan.found@),
                distinct_keys(plan.found@),
                distinct_texts(plan.misses@),
                forall|i: int| 0 <= i < texts@.len() ==> found.dom().contains(#[trigger] texts@[i]@) || mv.contains(texts@[i]@),
                forall|i: int| 0 <= i < plan.found@.len() ==> #[trigger] found.dom().contains(plan.found@[i].0@)
                    && found[plan.found@[i].0@] == plan.found@[i].1@,
                forall|q: Seq<char>| #[trigger] found.dom().contains(q) ==> exists|i: int| 0 <= i < plan.found@.len() && plan.found@[i].0@ == q,
                out@.len() == j,
                forall|i: int| 0 <= i < j ==> (#[trigger] out@[i])@ == answer(found, mv, vv, texts@[i]@),
            decreases texts@.len() - j,
        {
            let t = texts[j].as_str();
            match position(&plan.found, t) {
                Some(i) => {
                    out.push(copy_vector(&plan.found[i].1));
                },
                None => {
                    proof {
                        assert(!found.dom().contains(t@)) by {
                            if found.dom().contains(t@) {
                                let i = choose|i: int| 0 <= i < plan.found@.len() && plan.found@[i].0@ == t@;
                            }
                        }
                        assert(mv.contains(t@));
                    }
                    let k = self.text_index(&plan.misses, t);
                    proof {
                        let w = choose|w: int| 0 <= w < mv.len() && mv[w] == t@;
                        assert(mv[k as int] == plan.misses@[k as int]@);
                        assert(mv[w] == plan.misses@[w]@);
                        if w != k {
                            if w < k {
                                assert(plan.misses@[w]@ != plan.misses@[k as int]@);
                            } else {
                                assert(plan.misses@[k as int]@ != plan.misses@[w]@);
                            }
                        }
                        assert(vv[k as int] == vs@[k as int]@);
                    }
                    out.push(copy_vector(&vs[k]));
                },
            }
            j = j + 1;
        }
        Ok(out)
    }

    /// The position of text `t` in `v`, which holds it.
    fn text_index(&self, v: &Vec<String>, t: &str) -> (k: usize)
        requires
            texts_of(v@).contains(t@),
        ensures
            k < v@.len(),
            v@[k as int]@ == t@,
    {
        let mut i: usize = 0;
        while i < v.len()
            invariant
                i <= v@.len(),
                texts_of(v@).contains(t@),
                forall|j: int| 0 <= j < i ==> (#[trigger] v@[j])@ != t@,
            decreases v@.len() - i,
        {
            if str_eq(v[i].as_str(), t) {
                return i;
            }
            i = i + 1;
        }
        proof {
            let j = choose|j: int| 0 <= j < texts_of(v@).len() && texts_of(v@)[j] == t@;
            assert(v@[j]@ == t@);
        }
        0
    }

    /// Does `v` hold text `t`.
    fn contains_text(&self, v: &Vec<String>, t: &str) -> (r: bool)
        ensures
            r == texts_of(v@).contains(t@),
    {
        let mut i: usize = 0;
        while i < v.len()
            invariant
                i <= v@.len(),
                forall|j: int| 0 <= j < i ==> (#[trigger] v@[j])@ != t@,
            decreases v@.len() - i,
        {
            if str_eq(v[i].as_str(), t) {
                proof {
                    assert(texts_of(v@)[i as int] == t@);
                }
                return true;
            }
            i = i + 1;
        }
        proof {
            if texts_of(v@).contains(t@) {
                let j = choose|j: int| 0 <= j < texts_of(v@).len() && texts_of(v@)[j] == t@;
                assert(v@[j]@ == t@);
            }
        }
        false
    }
}

/// A vector just stored is what the next lookup of its text finds.
pub proof fn lemma_lookup_after_store(
    cur: Map<Seq<char>, Seq<u32>>,
    prev: Map<Seq<char>, Seq<u32>>,
    k: Seq<char>,
    v: Seq<u32>,
)
    ensures
        ({
            let (c, p) = after_insert(cur, prev, k, v);
            after_get(c, p, k) == (c, p, Some(v))
        }),
{
}

/// A lookup that finds its text only in the previous generation answers that vector and
/// brings the text back into the current generation, where the next rotation keeps it.
pub proof fn lemma_hit_is_promoted(cur: Map<Seq<char>, Seq<u32>>, prev: Map<Seq<char>, Seq<u32>>, k: Seq<char>)
    requires
        !cur.dom().contains(k),
        prev.dom().contains(k),
    ensures
        after_get(cur, prev, k).0.dom().contains(k),
        after_get(cur, prev, k).2 == Some(prev[k]),
{
}

/// A lookup never makes up a vector: what it finds is the text's vector in the current
/// generation, else in the previous one.
pub proof fn lemma_lookup_finds_stored(cur: Map<Seq<char>, Seq<u32>>, prev: Map<Seq<char>, Seq<u32>>, k: Seq<char>)
    ensures
        after_get(cur, prev, k).2 == (if cur.dom().contains(k) {
            Some(cur[k])
        } else if prev.dom().contains(k) {
            Some(prev[k])
        } else {
            None
        }),
{
}

} // verus!
