use edisonprompt::{Database, Prompt, PromptedsError};

fn store_with(entries: &[(&str, &str)]) -> Database {
    let mut db = Database::new();
    for (i, (name, content)) in entries.iter().enumerate() {
        let p = Prompt {
            id: format!("id-{}", i),
            name: name.to_string(),
            content: content.to_string(),
            variables: Vec::new(),
            tags: Vec::new(),
            created_at: i as i64,
            updated_at: i as i64,
        };
        db.create_prompt(&p).unwrap();
    }
    db
}

#[test]
fn unique_token_returns_exactly_one_prompt() {
    let db = store_with(&[
        ("emails", "Draft a polite reply about deadlines"),
        ("summaries", "Summarize the quarterly report"),
        ("reviews", "Review this patch for style"),
    ]);
    let hits = db.search_prompts("quarterly", 50, false).unwrap();
    assert_eq!(hits.len(), 1);
    assert_eq!(hits[0].prompt.name, "summaries");
    assert!(hits[0].highlighted_content.is_none());
}

#[test]
fn absent_token_returns_empty_not_error() {
    let db = store_with(&[("a", "alpha beta"), ("b", "gamma delta")]);
    let hits = db.search_prompts("nonexistent", 50, false).unwrap();
    assert!(hits.is_empty());
}

#[test]
fn all_query_tokens_must_match() {
    let db = store_with(&[("a", "red green"), ("b", "red blue")]);
    let hits = db.search_prompts("red blue", 50, false).unwrap();
    assert_eq!(hits.len(), 1);
    assert_eq!(hits[0].prompt.name, "b");
}

#[test]
fn search_matches_name_too() {
    let db = store_with(&[("invoice-letter", "some body"), ("other", "some body")]);
    let hits = db.search_prompts("invoice", 50, false).unwrap();
    assert_eq!(hits.len(), 1);
    assert_eq!(hits[0].prompt.name, "invoice-letter");
}

#[test]
fn search_is_case_insensitive() {
    let db = store_with(&[("a", "Hello World")]);
    assert_eq!(db.search_prompts("hello", 50, false).unwrap().len(), 1);
    assert_eq!(db.search_prompts("WORLD", 50, false).unwrap().len(), 1);
}

#[test]
fn better_matches_come_first() {
    let db = store_with(&[
        ("once", "rust appears here"),
        ("thrice", "rust rust rust everywhere"),
    ]);
    let hits = db.search_prompts("rust", 50, false).unwrap();
    assert_eq!(hits.len(), 2);
    assert_eq!(hits[0].prompt.name, "thrice");
    assert!(hits[0].score > hits[1].score);
}

#[test]
fn limit_caps_result_count() {
    let db = store_with(&[("a", "token x"), ("b", "token y"), ("c", "token z")]);
    assert_eq!(db.search_prompts("token", 2, false).unwrap().len(), 2);
    assert_eq!(db.search_prompts("token", 0, false).unwrap().len(), 0);
}

#[test]
fn highlight_wraps_matches() {
    let db = store_with(&[("a", "say hello twice: hello world")]);
    let hits = db.search_prompts("hello", 50, true).unwrap();
    assert_eq!(hits.len(), 1);
    assert_eq!(
        hits[0].highlighted_content.as_deref(),
        Some("say <mark>hello</mark> twice: <mark>hello</mark> world")
    );
}

#[test]
fn highlight_is_case_preserving() {
    let db = store_with(&[("a", "Hello there")]);
    let hits = db.search_prompts("hello", 50, true).unwrap();
    assert_eq!(hits[0].highlighted_content.as_deref(), Some("<mark>Hello</mark> there"));
}

#[test]
fn empty_query_is_an_error() {
    let db = store_with(&[("a", "something")]);
    let err = db.search_prompts("", 50, false).unwrap_err();
    assert!(matches!(err, PromptedsError::Storage { .. }));
    assert_eq!(err.exit_code(), 10);
    assert!(db.search_prompts("...!!!", 50, false).is_err());
}

#[test]
fn search_returns_complete_prompt() {
    let mut db = Database::new();
    let p = Prompt {
        id: "id-full".to_string(),
        name: "full".to_string(),
        content: "needle in content {{v}}".to_string(),
        variables: vec![edisonprompt::Variable::new("v".to_string())],
        tags: vec!["tagged".to_string()],
        created_at: 7,
        updated_at: 8,
    };
    db.create_prompt(&p).unwrap();
    let hits = db.search_prompts("needle", 50, false).unwrap();
    assert_eq!(hits.len(), 1);
    let hit = &hits[0].prompt;
    assert_eq!(hit.id, "id-full");
    assert_eq!(hit.variables.len(), 1);
    assert_eq!(hit.tags, vec!["tagged"]);
    assert_eq!(hit.created_at, 7);
    assert_eq!(hit.updated_at, 8);
}
