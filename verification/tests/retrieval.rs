use mcpgw::retrieval::{
    arrange_embeddings, build_user_prompt, chat_request_body, embeddings_answer, embeddings_request, EmbeddingsExchange, chat_reply, check_dimensions, embedding_order, http_failure, parse_selection,
    get_tool_details, rerank, subagent_select, system_prompt, tokenize, trim_trailing_slashes, ChatError, ChatModel,
    EmbedError, Embedder, MockChatModel, MockEmbedder, Reranked, ToolDef,
};

#[test]
fn tokenize_splits_on_non_alphanumeric_and_lowercases() {
    assert_eq!(tokenize("GitHub__create_issue"), vec!["github", "create", "issue"]);
    assert_eq!(tokenize("  multiple,, spaces "), vec!["multiple", "spaces"]);
    assert!(tokenize("").is_empty());
}

#[test]
fn tokenize_keeps_unicode_letters_and_digits() {
    assert_eq!(tokenize("Café-42 日本"), vec!["café", "42", "日本"]);
}

#[test]
fn qualified_name_joins_server_and_name_with_double_underscore() {
    let t = ToolDef {
        server: "github".into(),
        name: "create_issue".into(),
        description: "Create a GitHub issue".into(),
        input_schema: "null".into(),
    };
    assert_eq!(t.qualified_name(), "github__create_issue");
}

fn names(v: &[&str]) -> Vec<String> {
    v.iter().map(|s| s.to_string()).collect()
}

#[test]
fn parse_keeps_only_allowed_in_order_dedup() {
    let allowed = names(&["a__x", "b__y", "c__z"]);
    let reply = r#"sure: ["b__y", "zzz", "a__x", "a__x"] -- done"#;
    assert_eq!(parse_selection(reply, &allowed), vec!["b__y".to_string(), "a__x".to_string()]);
}

#[test]
fn parse_returns_empty_on_garbage_or_empty_array() {
    let allowed = names(&["a__x"]);
    assert!(parse_selection("no json here", &allowed).is_empty());
    assert!(parse_selection("[not valid json", &allowed).is_empty());
    assert!(parse_selection("[]", &allowed).is_empty());
}

#[test]
fn parse_returns_empty_on_non_string_json_array() {
    let allowed = names(&["a__x"]);
    assert!(parse_selection("[1, 2, 3]", &allowed).is_empty());
}

#[test]
fn parse_reads_from_first_open_to_last_close_bracket() {
    let allowed = names(&["a__x", "b__y"]);
    assert_eq!(parse_selection("```json\n[\"a__x\"]\n```", &allowed), vec!["a__x".to_string()]);
    assert!(parse_selection("] before [", &allowed).is_empty());
    assert!(parse_selection("[\"a__x\"] and [\"b__y\"]", &allowed).is_empty(), "greedy span is not one array");
}

#[test]
fn user_prompt_lists_numbered_candidates() {
    let shortlist = vec![
        ("gh__a".to_string(), "first".to_string()),
        ("wx__b".to_string(), "second".to_string()),
    ];
    assert_eq!(
        build_user_prompt("weather", &shortlist, 3),
        "Query: weather\nReturn at most 3 qualified_names.\nCandidates:\n1. gh__a: first\n2. wx__b: second\n"
    );
}

#[test]
fn chat_reply_requires_non_blank_content() {
    assert_eq!(chat_reply(Some("[\"a\"]".into())).unwrap(), "[\"a\"]");
    assert!(matches!(chat_reply(Some("   ".into())), Err(ChatError::Empty)));
    assert!(matches!(chat_reply(None), Err(ChatError::Empty)));
    assert_eq!(ChatError::Empty.message(), "chat model returned no usable content");
    assert_eq!(ChatError::Provider("x".into()).message(), "chat provider error: x");
}

#[test]
fn provider_failures_quote_status_and_snippet() {
    let body = "e".repeat(600);
    let m = http_failure("500 Internal Server Error", "chat", &body);
    assert_eq!(m, format!("HTTP 500 Internal Server Error from chat endpoint: {}", "e".repeat(500)));
    assert_eq!(trim_trailing_slashes("https://x/v1//"), "https://x/v1");
    assert_eq!(trim_trailing_slashes("///"), "");
}

#[test]
fn embeddings_are_matched_by_index_and_dimension() {
    assert_eq!(embedding_order(&vec![1, 0, 2], 3), Some(vec![1, 0, 2]));
    assert_eq!(embedding_order(&vec![2, 0, 1], 3), Some(vec![1, 2, 0]));
    assert_eq!(embedding_order(&vec![0, 0], 2), None);
    assert_eq!(embedding_order(&vec![0], 2), None);
    assert!(check_dimensions(&vec![4, 4], &vec![0, 1], Some(4)).is_ok());
    assert!(check_dimensions(&vec![4, 3], &vec![0, 1], None).is_ok());
    match check_dimensions(&vec![4, 3], &vec![1, 0], Some(4)) {
        Err(EmbedError::Dimension { expected, got }) => {
            assert_eq!((expected, got), (4, 3));
        }
        _ => panic!("expected a dimension error"),
    }
    assert_eq!(
        EmbedError::Dimension { expected: 4, got: 3 }.message(),
        "embedding dimension mismatch: expected 4, got 3"
    );
}

#[test]
fn mock_returns_scripted_reply_and_records_prompts() {
    let mut m = MockChatModel::new("hello");
    let out = m.complete("sys", "usr").ok().expect("ok");
    assert_eq!(out, "hello");
    assert_eq!(m.calls, 1);
    assert_eq!(m.last_system, "sys");
    assert_eq!(m.last_user, "usr");
}

#[test]
fn failing_mock_errors() {
    let mut m = MockChatModel::failing();
    match m.complete("s", "u") {
        Err(ChatError::Provider(msg)) => assert_eq!(msg, "mock failure"),
        _ => panic!("expected a provider error"),
    }
    assert_eq!(m.calls, 1);
}

fn shortlist(v: &[&str]) -> Vec<(String, String)> {
    v.iter().map(|s| (s.to_string(), format!("{s} description"))).collect()
}

fn positions(r: Option<Reranked>) -> (Vec<usize>, usize) {
    match r {
        Some(Reranked::Selected(p, total)) => (p, total),
        _ => panic!("expected a selection"),
    }
}

#[test]
fn rerank_follows_the_model_order() {
    let list = shortlist(&["github__create_issue", "github__list_pull_requests", "slack__post"]);
    let mut m = MockChatModel::new(r#"["github__list_pull_requests", "github__create_issue"]"#);
    let (pos, total) = positions(subagent_select(&mut m, "create github issue", &list, 20));
    assert_eq!(pos, vec![1, 0]);
    assert_eq!(total, 2);
    assert_eq!(m.calls, 1);
    assert_eq!(m.last_system, system_prompt());
    assert!(m.last_user.contains("Candidates:"));
    assert!(m.last_user.contains("1. github__create_issue: github__create_issue description\n"));
}

#[test]
fn rerank_drops_hallucinated_names_and_respects_top_k() {
    let list = shortlist(&["github__create_issue", "github__list_pull_requests"]);
    let mut m = MockChatModel::new(r#"["nope__nonexistent", "github__create_issue"]"#);
    assert_eq!(positions(subagent_select(&mut m, "q", &list, 20)), (vec![0], 1));
    let mut m = MockChatModel::new(r#"["github__create_issue", "github__list_pull_requests"]"#);
    assert_eq!(positions(subagent_select(&mut m, "q", &list, 1)), (vec![0], 2));
}

#[test]
fn rerank_falls_back_to_the_shortlist() {
    let list = shortlist(&["a__x", "b__y", "c__z"]);
    let mut failing = MockChatModel::failing();
    assert!(matches!(subagent_select(&mut failing, "q", &list, 2), Some(Reranked::Fallback(2))));
    let mut garbage = MockChatModel::new("I think you want a tool");
    assert!(matches!(subagent_select(&mut garbage, "q", &list, 20), Some(Reranked::Fallback(3))));
    let names: Vec<String> = list.iter().map(|p| p.0.clone()).collect();
    assert!(matches!(rerank(&names, Ok("[]".to_string()), 1), Reranked::Fallback(1)));
    assert!(matches!(rerank(&names, Err(ChatError::Empty), 5), Reranked::Fallback(3)));
}

#[test]
fn rerank_maps_a_repeated_shortlist_name_to_its_last_position() {
    let names: Vec<String> = vec!["a__x".into(), "b__y".into(), "a__x".into()];
    match rerank(&names, Ok(r#"["a__x"]"#.to_string()), 5) {
        Reranked::Selected(p, total) => {
            assert_eq!(p, vec![2]);
            assert_eq!(total, 1);
        }
        _ => panic!("expected a selection"),
    }
}

#[test]
fn empty_shortlist_answers_without_calling_the_model() {
    let mut m = MockChatModel::new(r#"["github__create_issue"]"#);
    assert!(subagent_select(&mut m, "zzzznonexistent", &Vec::new(), 20).is_none());
    assert_eq!(m.calls, 0);
}

fn floats(v: &[u32]) -> Vec<f64> {
    v.iter().map(|b| f32::from_bits(*b) as f64).collect()
}

fn cos(x: &[u32], y: &[u32]) -> f64 {
    let (x, y) = (floats(x), floats(y));
    let dot: f64 = x.iter().zip(&y).map(|(a, b)| a * b).sum();
    let nx: f64 = x.iter().map(|a| a * a).sum::<f64>().sqrt();
    let ny: f64 = y.iter().map(|a| a * a).sum::<f64>().sqrt();
    dot / (nx * ny)
}

#[test]
fn mock_embedder_is_deterministic_and_right_dim() {
    let mut e = MockEmbedder::new(64);
    assert_eq!(e.dim(), 64);
    let a = e.embed(&vec!["create github issue".to_string()]).ok().unwrap();
    let b = e.embed(&vec!["create github issue".to_string()]).ok().unwrap();
    assert_eq!(a, b, "same text -> same vector");
    assert_eq!(a[0].len(), 64);
    assert_eq!(e.calls, 2);
    assert_eq!(e.seen.len(), 2);
}

#[test]
fn mock_embedder_shared_tokens_score_higher_cosine() {
    let mut e = MockEmbedder::new(64);
    let v = e
        .embed(&vec![
            "send a slack message".to_string(),
            "post a message to a slack channel".to_string(),
            "get the weather forecast".to_string(),
        ])
        .ok()
        .unwrap();
    assert!(cos(&v[0], &v[1]) > cos(&v[0], &v[2]), "related text must be closer than unrelated");
}

#[test]
fn mock_embedder_failing_returns_err() {
    let mut e = MockEmbedder::failing(64);
    assert!(e.embed(&vec!["x".to_string()]).is_err());
    assert!(e.seen.is_empty());
}

#[test]
fn mock_embedder_counts_tokens_in_their_fnv1a_bucket() {
    // FNV-1a of "a" is 0xaf63dc4c8601ec8c; modulo 7 that is bucket 5.
    let mut e = MockEmbedder::new(7);
    let v = e.bucket_counts(&vec!["A, a a".to_string(), "".to_string()]).ok().unwrap();
    let expected_bucket = (0xaf63dc4c8601ec8cu64 % 7) as usize;
    assert_eq!(v[0][expected_bucket], 3);
    assert_eq!(v[0].iter().sum::<usize>(), 3);
    assert_eq!(v[1], vec![0; 7]);
}

#[test]
fn mock_embedder_vectors_are_the_counts_as_f32() {
    let mut e = MockEmbedder::new(7);
    let v = e.embed(&vec!["A, a a b".to_string()]).ok().unwrap();
    let counts = e.bucket_counts(&vec!["A, a a b".to_string()]).ok().unwrap();
    let as_floats: Vec<f32> = v[0].iter().map(|b| f32::from_bits(*b)).collect();
    let expected: Vec<f32> = counts[0].iter().map(|c| *c as f32).collect();
    assert_eq!(as_floats, expected);
    assert_eq!(f32::from_bits(v[0][(0xaf63dc4c8601ec8cu64 % 7) as usize]), 3.0);
    assert_eq!(e.calls, 2);
}

#[test]
fn get_tool_details_returns_full_def_or_none() {
    let catalog = vec![
        ToolDef { server: "github".into(), name: "create_issue".into(), description: "Create a new issue in a GitHub repository".into(), input_schema: "null".into() },
        ToolDef { server: "weather".into(), name: "get_forecast".into(), description: "Get the weather forecast for a location".into(), input_schema: "null".into() },
    ];
    let d = get_tool_details(&catalog, "github__create_issue").unwrap();
    assert_eq!(d.server, "github");
    assert_eq!(d.name, "create_issue");
    assert!(get_tool_details(&catalog, "nope__missing").is_none());
}

#[test]
fn non_2xx_is_provider_error() {
    let msg = http_failure("400 Bad Request", "chat completions", "{\"error\":\"bad model xyz\"}");
    assert!(msg.contains("400"), "should carry status: {msg}");
    assert!(msg.contains("bad model xyz"), "should carry body snippet: {msg}");
}

#[test]
fn empty_choices_is_empty_error() {
    assert!(matches!(chat_reply(None), Err(ChatError::Empty)));
}

#[test]
fn blank_content_is_empty_error() {
    assert!(matches!(chat_reply(Some("   ".to_string())), Err(ChatError::Empty)));
    assert_eq!(chat_reply(Some("[\"a__b\"]".to_string())).ok(), Some("[\"a__b\"]".to_string()));
}

#[test]
fn dimension_mismatch_is_error() {
    // The provider answers one vector of dimension 3; 99 is configured.
    assert!(matches!(
        arrange_embeddings(&vec![0], &vec![3], 1, Some(99)),
        Err(EmbedError::Dimension { expected: 99, got: 3 })
    ));
    assert_eq!(arrange_embeddings(&vec![1, 0], &vec![3, 3], 2, Some(3)).ok(), Some(vec![1, 0]));
}

#[test]
fn non_2xx_includes_body_snippet() {
    let msg = http_failure("400 Bad Request", "embeddings", "{\"error\":\"bad model xyz\"}");
    assert!(msg.contains("400"), "msg should contain status: {msg}");
    assert!(msg.contains("bad model xyz"), "msg should contain body snippet: {msg}");
}

#[test]
fn empty_input_returns_ok_without_request() {
    assert_eq!(embeddings_request("text-embedding-3-small", &Vec::new()), None);
    assert_eq!(arrange_embeddings(&Vec::new(), &Vec::new(), 0, Some(8)).ok(), Some(Vec::new()));
}

#[test]
fn embeddings_request_body_names_the_model_and_the_inputs() {
    let texts = vec!["a".to_string(), "say \"hi\"\n".to_string()];
    assert_eq!(
        embeddings_request("m", &texts).unwrap(),
        "{\"input\":[\"a\",\"say \\\"hi\\\"\\n\"],\"model\":\"m\"}"
    );
}

#[test]
fn chat_request_body_sends_the_two_prompts_at_temperature_zero() {
    assert_eq!(
        chat_request_body("m", "sys", "usr"),
        "{\"messages\":[{\"content\":\"sys\",\"role\":\"system\"},{\"content\":\"usr\",\"role\":\"user\"}],\"model\":\"m\",\"temperature\":0}"
    );
}

#[test]
fn non_contiguous_indices_are_rejected() {
    match arrange_embeddings(&vec![0, 0], &vec![3, 3], 2, None) {
        Err(EmbedError::Provider(m)) => assert_eq!(m, "embeddings response did not match 2 inputs by index"),
        _ => panic!("expected a provider error"),
    }
}

#[test]
fn embeddings_answer_follows_the_exchange() {
    assert_eq!(embeddings_answer(0, Some(3), None).ok(), Some(Vec::new()));
    match embeddings_answer(2, None, Some(EmbeddingsExchange::Unsent("connection refused".into()))) {
        Err(EmbedError::Provider(m)) => assert_eq!(m, "request failed: connection refused"),
        _ => panic!("expected a provider error"),
    }
    let body = "x".repeat(600);
    match embeddings_answer(2, None, Some(EmbeddingsExchange::Refused { status: "500 Internal Server Error".into(), body })) {
        Err(EmbedError::Provider(m)) => {
            assert!(m.starts_with("HTTP 500 Internal Server Error from embeddings endpoint: "));
            assert_eq!(m.len(), "HTTP 500 Internal Server Error from embeddings endpoint: ".len() + 500);
        },
        _ => panic!("expected a provider error"),
    }
    match embeddings_answer(1, None, Some(EmbeddingsExchange::Undecodable("expected value".into()))) {
        Err(EmbedError::Provider(m)) => assert_eq!(m, "decode failed: expected value"),
        _ => panic!("expected a provider error"),
    }
    let decoded = EmbeddingsExchange::Decoded { indices: vec![1, 0], dims: vec![3, 3] };
    assert_eq!(embeddings_answer(2, Some(3), Some(decoded)).ok(), Some(vec![1, 0]));
    let short = EmbeddingsExchange::Decoded { indices: vec![0, 1], dims: vec![3, 2] };
    assert!(matches!(embeddings_answer(2, Some(3), Some(short)), Err(EmbedError::Dimension { expected: 3, got: 2 })));
}
