use mcpgw::caching::{CachingEmbedder, GenCache, CACHE_GEN_CAP};
use mcpgw::retrieval::{EmbedError, Embedder, MockEmbedder};

/// FNV-1a, used only to derive deterministic test vectors (equal text -> equal vector).
fn text_hash(text: &str) -> u64 {
    let mut h: u64 = 0xcbf29ce484222325;
    for b in text.as_bytes() {
        h ^= *b as u64;
        h = h.wrapping_mul(0x100000001b3);
    }
    h
}

fn test_vector(t: &str) -> Vec<u32> {
    vec![(text_hash(t) as f32).to_bits(), 0.0f32.to_bits()]
}

/// Counts how many texts it was asked to embed; each vector is derived from its text.
struct Counting {
    calls: usize,
}

impl Counting {
    fn embed(&mut self, texts: &[String]) -> Result<Vec<Vec<u32>>, EmbedError> {
        self.calls += texts.len();
        Ok(texts.iter().map(|t| test_vector(t)).collect())
    }
}

fn embed_counting(c: &mut CachingEmbedder, inner: &mut Counting, texts: &[String]) -> Result<Vec<Vec<u32>>, EmbedError> {
    let texts = texts.to_vec();
    let plan = c.plan(&texts);
    let embedded = if plan.misses.is_empty() { Ok(Vec::new()) } else { inner.embed(&plan.misses) };
    c.finish(&texts, plan, embedded)
}

fn embed_mock(c: &mut CachingEmbedder, inner: &mut MockEmbedder, texts: &[&str]) -> Result<Vec<Vec<u32>>, EmbedError> {
    let texts: Vec<String> = texts.iter().map(|s| s.to_string()).collect();
    c.embed(inner, &texts)
}

#[test]
fn caches_hits_and_only_embeds_misses() {
    let mut inner = Counting { calls: 0 };
    let mut c = CachingEmbedder::new();
    let a = embed_counting(&mut c, &mut inner, &["x".into()]).ok().unwrap();
    let b = embed_counting(&mut c, &mut inner, &["x".into()]).ok().unwrap();
    assert_eq!(a, b);
    assert_eq!(inner.calls, 1, "second embed of the same text must hit the cache (no new inner call)");
}

#[test]
fn distinct_texts_get_distinct_vectors() {
    let mut inner = Counting { calls: 0 };
    let mut c = CachingEmbedder::new();
    let first = embed_counting(&mut c, &mut inner, &["alpha".into(), "beta".into()]).ok().unwrap();
    let again = embed_counting(&mut c, &mut inner, &["alpha".into(), "beta".into()]).ok().unwrap();
    assert_eq!(first, again);
    assert_ne!(first[0], first[1], "different texts must map to different vectors");
}

#[test]
fn memory_is_bounded_under_many_distinct_texts() {
    let mut inner = Counting { calls: 0 };
    let mut c = CachingEmbedder::new();
    for i in 0..(CACHE_GEN_CAP * 3) {
        embed_counting(&mut c, &mut inner, &[format!("q{i}")]).ok().unwrap();
    }
    assert!(c.len() <= 2 * CACHE_GEN_CAP, "cache must stay bounded at ~2*CAP, got {}", c.len());
}

#[test]
fn promote_on_hit_prevents_re_embedding_a_hot_key() {
    let mut inner = Counting { calls: 0 };
    let mut c = CachingEmbedder::new();
    embed_counting(&mut c, &mut inner, &["hot".into()]).ok().unwrap();
    for i in 0..(CACHE_GEN_CAP * 3) {
        embed_counting(&mut c, &mut inner, &[format!("k{i}")]).ok().unwrap();
        if i % (CACHE_GEN_CAP / 2) == 0 {
            embed_counting(&mut c, &mut inner, &["hot".into()]).ok().unwrap();
        }
    }
    assert_eq!(
        inner.calls,
        CACHE_GEN_CAP * 3 + 1,
        "promotion must prevent any re-embed of the periodically-touched hot key"
    );
}

#[test]
fn single_oversized_batch_stays_bounded_and_returns_all_vectors() {
    let mut inner = Counting { calls: 0 };
    let mut c = CachingEmbedder::new();
    let batch: Vec<String> = (0..(CACHE_GEN_CAP * 2 + 7)).map(|i| format!("t{i}")).collect();
    let out = embed_counting(&mut c, &mut inner, &batch).ok().unwrap();
    assert_eq!(out.len(), batch.len(), "one output vector per input");
    for (t, v) in batch.iter().zip(&out) {
        assert_eq!(v, &test_vector(t), "vector for {t:?} must be correct despite mid-batch eviction");
    }
    assert!(c.len() <= 2 * CACHE_GEN_CAP, "persistent cache must stay bounded even for an oversized batch");
}

#[test]
fn short_inner_return_errors_instead_of_panicking() {
    let mut c = CachingEmbedder::new();
    let texts: Vec<String> = vec!["a".into(), "b".into()];
    let plan = c.plan(&texts);
    let short = Ok(vec![vec![0u32, 0u32]]);
    match c.finish(&texts, plan, short) {
        Err(EmbedError::Provider(m)) => assert_eq!(m, "embedder returned 1 vectors for 2 inputs"),
        _ => panic!("a short inner return must be an Err, not a panic"),
    }
    assert_eq!(c.len(), 0, "nothing is cached from a refused answer");
}

#[test]
fn caches_and_only_embeds_new_texts() {
    let mut mock = MockEmbedder::new(32);
    let mut c = CachingEmbedder::new();
    let v1 = embed_mock(&mut c, &mut mock, &["a", "b"]).ok().unwrap();
    let v2 = embed_mock(&mut c, &mut mock, &["a", "c"]).ok().unwrap();
    assert_eq!(mock.seen, vec!["a", "b", "c"]);
    assert_eq!(v1[0], v2[0]);
}

#[test]
fn preserves_input_order_and_dedups_within_a_call() {
    let mut mock = MockEmbedder::new(16);
    let mut c = CachingEmbedder::new();
    let v = embed_mock(&mut c, &mut mock, &["x", "y", "x"]).ok().unwrap();
    assert_eq!(v.len(), 3);
    assert_eq!(v[0], v[2]);
    assert_eq!(v[0].len(), 16);
    assert_eq!(mock.seen, vec!["x", "y"]);
}

#[test]
fn all_cached_second_call_skips_inner() {
    let mut mock = MockEmbedder::new(8);
    let mut c = CachingEmbedder::new();
    embed_mock(&mut c, &mut mock, &["a"]).ok().unwrap();
    embed_mock(&mut c, &mut mock, &["a"]).ok().unwrap();
    assert_eq!(mock.calls, 1);
}

#[test]
fn propagates_inner_error() {
    let mut mock = MockEmbedder::failing(8);
    let mut c = CachingEmbedder::new();
    assert!(embed_mock(&mut c, &mut mock, &["x"]).is_err());
    assert_eq!(c.len(), 0);
}

#[test]
fn gen_cache_rotates_and_promotes() {
    let mut g = GenCache::new();
    g.insert("hot".to_string(), vec![7]);
    for i in 0..CACHE_GEN_CAP {
        g.insert(format!("k{i}"), vec![i as u32]);
    }
    // The first generation filled up with "hot" and k0..; k{CAP-1} started a new one.
    assert_eq!(g.len(), CACHE_GEN_CAP + 1);
    assert_eq!(g.get("hot"), Some(vec![7]));
    assert_eq!(g.get("k5"), Some(vec![5]));
    assert_eq!(g.get("missing"), None);
    g.insert("k5".to_string(), vec![50]);
    assert_eq!(g.get("k5"), Some(vec![50]));
}

#[test]
fn caching_embed_asks_inner_once_for_the_misses_only() {
    let mut mock = MockEmbedder::new(8);
    let mut c = CachingEmbedder::new();
    embed_mock(&mut c, &mut mock, &["a", "b", "a"]).ok().unwrap();
    assert_eq!(mock.calls, 1);
    assert_eq!(mock.seen, vec!["a", "b"]);
    let v = embed_mock(&mut c, &mut mock, &["b", "c", "a", "c"]).ok().unwrap();
    assert_eq!(mock.calls, 2, "one call for the one text left to embed");
    assert_eq!(mock.seen, vec!["a", "b", "c"]);
    assert_eq!(v.len(), 4);
    assert_eq!(v[1], v[3]);
}

#[test]
fn caching_embed_of_nothing_asks_nothing() {
    let mut mock = MockEmbedder::new(8);
    let mut c = CachingEmbedder::new();
    let v = embed_mock(&mut c, &mut mock, &[]).ok().unwrap();
    assert!(v.is_empty());
    assert_eq!(mock.calls, 0);
}

#[test]
fn caching_embed_keeps_nothing_from_a_failed_call() {
    let mut mock = MockEmbedder::failing(8);
    let mut c = CachingEmbedder::new();
    match embed_mock(&mut c, &mut mock, &["x", "y"]) {
        Err(EmbedError::Provider(m)) => assert_eq!(m, "mock failure"),
        other => panic!("unexpected {other:?}"),
    }
    assert_eq!(mock.calls, 1);
    assert_eq!(c.len(), 0);
}
