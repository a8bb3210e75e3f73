use edisonprompt::{Database, Prompt, PromptedsError, Variable};

fn sample(name: &str, content: &str, updated_at: i64) -> Prompt {
    Prompt {
        id: format!("id-{}", name),
        name: name.to_string(),
        content: content.to_string(),
        variables: Vec::new(),
        tags: Vec::new(),
        created_at: updated_at,
        updated_at,
    }
}

#[test]
fn create_then_get_round_trips() {
    let mut db = Database::new();
    let mut p = sample("greet", "Hello {{name}}!", 10);
    p.variables = vec![Variable::new("name".to_string()).with_description("who".to_string())];
    p.tags = vec!["work".to_string(), "daily".to_string()];
    db.create_prompt(&p).unwrap();

    let got = db.get_prompt("greet").unwrap();
    assert_eq!(got.id, p.id);
    assert_eq!(got.name, "greet");
    assert_eq!(got.content, "Hello {{name}}!");
    assert_eq!(got.variables.len(), 1);
    assert_eq!(got.variables[0].name, "name");
    assert_eq!(got.variables[0].description.as_deref(), Some("who"));
    assert_eq!(got.tags, vec!["work", "daily"]);
    assert_eq!(got.created_at, 10);
    assert_eq!(got.updated_at, 10);
}

#[test]
fn create_duplicate_name_fails_and_leaves_state() {
    let mut db = Database::new();
    let mut original = sample("taken", "original content", 5);
    original.tags = vec!["keep".to_string()];
    db.create_prompt(&original).unwrap();

    let mut second = sample("taken", "other content", 9);
    second.id = "id-other".to_string();
    let err = db.create_prompt(&second).unwrap_err();
    assert!(matches!(err, PromptedsError::PromptAlreadyExists { ref name } if name == "taken"));
    assert_eq!(err.exit_code(), 2);

    let got = db.get_prompt("taken").unwrap();
    assert_eq!(got.content, "original content");
    assert_eq!(got.tags, vec!["keep"]);
    assert_eq!(db.list_prompts(None, None).unwrap().len(), 1);
}

#[test]
fn create_rejects_constraint_violations() {
    let mut db = Database::new();
    assert!(matches!(
        db.create_prompt(&sample("empty-content", "", 1)).unwrap_err(),
        PromptedsError::Storage { .. }
    ));
    let long_name = "n".repeat(101);
    assert!(matches!(
        db.create_prompt(&sample(&long_name, "ok", 1)).unwrap_err(),
        PromptedsError::Storage { .. }
    ));
    let mut dup_vars = sample("dup-vars", "c", 1);
    dup_vars.variables = vec![
        Variable::new("same".to_string()),
        Variable::new("same".to_string()),
    ];
    assert!(matches!(db.create_prompt(&dup_vars).unwrap_err(), PromptedsError::Storage { .. }));
    assert!(db.list_prompts(None, None).unwrap().is_empty());
}

#[test]
fn get_missing_prompt_fails() {
    let db = Database::new();
    let err = db.get_prompt("absent").unwrap_err();
    assert!(matches!(err, PromptedsError::PromptNotFound { ref name } if name == "absent"));
    assert_eq!(err.exit_code(), 1);
}

#[test]
fn prompt_exists_reports_presence() {
    let mut db = Database::new();
    assert!(!db.prompt_exists("p").unwrap());
    db.create_prompt(&sample("p", "c", 1)).unwrap();
    assert!(db.prompt_exists("p").unwrap());
}

#[test]
fn delete_removes_prompt_but_keeps_tags_registered() {
    let mut db = Database::new();
    let mut p = sample("tagged", "content", 3);
    p.tags = vec!["orphan".to_string(), "shared".to_string()];
    db.create_prompt(&p).unwrap();

    db.delete_prompt("tagged").unwrap();
    assert!(!db.prompt_exists("tagged").unwrap());
    let registry = db.list_tags().unwrap();
    assert_eq!(registry, vec!["orphan", "shared"]);
}

#[test]
fn delete_missing_prompt_fails() {
    let mut db = Database::new();
    assert!(matches!(
        db.delete_prompt("nothing").unwrap_err(),
        PromptedsError::PromptNotFound { .. }
    ));
}

#[test]
fn update_replaces_content_variables_and_tags() {
    let mut db = Database::new();
    let mut p = sample("doc", "v1 {{a}}", 1);
    p.variables = vec![Variable::new("a".to_string())];
    p.tags = vec!["old".to_string()];
    db.create_prompt(&p).unwrap();

    let mut newer = sample("doc", "v2 {{b}}", 42);
    newer.id = p.id.clone();
    newer.created_at = 999; // ignored: the stored row keeps its creation time
    newer.variables = vec![Variable::new("b".to_string())];
    newer.tags = vec!["new".to_string()];
    db.update_prompt(&newer).unwrap();

    let got = db.get_prompt("doc").unwrap();
    assert_eq!(got.content, "v2 {{b}}");
    assert_eq!(got.updated_at, 42);
    assert_eq!(got.created_at, 1);
    assert_eq!(got.variables.len(), 1);
    assert_eq!(got.variables[0].name, "b");
    assert_eq!(got.tags, vec!["new"]);
    // the unlinked tag stays registered
    assert_eq!(db.list_tags().unwrap(), vec!["old", "new"]);
}

#[test]
fn update_unknown_id_fails() {
    let mut db = Database::new();
    db.create_prompt(&sample("present", "c", 1)).unwrap();
    let stranger = sample("present", "c2", 2); // same name, different id
    assert!(matches!(
        db.update_prompt(&Prompt { id: "no-such-id".to_string(), ..stranger }).unwrap_err(),
        PromptedsError::PromptNotFound { .. }
    ));
}

#[test]
fn list_orders_by_updated_descending_and_limits() {
    let mut db = Database::new();
    db.create_prompt(&sample("oldest", "c", 1)).unwrap();
    db.create_prompt(&sample("newest", "c", 30)).unwrap();
    db.create_prompt(&sample("middle", "c", 20)).unwrap();

    let all = db.list_prompts(None, None).unwrap();
    let names: Vec<&str> = all.iter().map(|s| s.name.as_str()).collect();
    assert_eq!(names, vec!["newest", "middle", "oldest"]);

    let top = db.list_prompts(None, Some(2)).unwrap();
    let top_names: Vec<&str> = top.iter().map(|s| s.name.as_str()).collect();
    assert_eq!(top_names, vec!["newest", "middle"]);
}

#[test]
fn list_filters_by_tag_and_counts() {
    let mut db = Database::new();
    let mut a = sample("a", "c {{x}}", 2);
    a.variables = vec![Variable::new("x".to_string())];
    a.tags = vec!["work".to_string()];
    let mut b = sample("b", "c", 1);
    b.tags = vec!["home".to_string(), "misc".to_string()];
    db.create_prompt(&a).unwrap();
    db.create_prompt(&b).unwrap();

    let work = db.list_prompts(Some("work"), None).unwrap();
    assert_eq!(work.len(), 1);
    assert_eq!(work[0].name, "a");
    assert_eq!(work[0].variable_count, 1);
    assert_eq!(work[0].tag_count, 1);

    let home = db.list_prompts(Some("home"), None).unwrap();
    assert_eq!(home.len(), 1);
    assert_eq!(home[0].name, "b");
    assert_eq!(home[0].tag_count, 2);

    assert!(db.list_prompts(Some("nobody"), None).unwrap().is_empty());
}

#[test]
fn get_all_returns_full_entities_newest_first() {
    let mut db = Database::new();
    let mut p1 = sample("p1", "c1", 100);
    p1.tags = vec!["t".to_string()];
    db.create_prompt(&p1).unwrap();
    db.create_prompt(&sample("p2", "c2", 200)).unwrap();

    let all = db.get_all_prompts().unwrap();
    assert_eq!(all.len(), 2);
    assert_eq!(all[0].name, "p2");
    assert_eq!(all[1].name, "p1");
    assert_eq!(all[1].tags, vec!["t"]);
    assert_eq!(all[1].content, "c1");
}

#[test]
fn duplicate_tags_are_stored_once() {
    let mut db = Database::new();
    let mut p = sample("p", "c", 1);
    p.tags = vec!["x".to_string(), "x".to_string(), "y".to_string()];
    db.create_prompt(&p).unwrap();
    assert_eq!(db.get_prompt("p").unwrap().tags, vec!["x", "y"]);
    assert_eq!(db.list_tags().unwrap(), vec!["x", "y"]);
}

#[test]
fn schema_version_is_current() {
    let db = Database::new();
    assert_eq!(db.get_schema_version().unwrap(), 1);
    assert!(!db.needs_migration().unwrap());
}

#[test]
fn prompt_new_fills_defaults() {
    let p = Prompt::new("fresh".to_string(), "content".to_string());
    assert_eq!(p.id.len(), 36);
    assert_eq!(p.name, "fresh");
    assert_eq!(p.content, "content");
    assert!(p.variables.is_empty());
    assert!(p.tags.is_empty());
    assert_eq!(p.created_at, p.updated_at);
    let q = Prompt::new("other".to_string(), "c".to_string());
    assert_ne!(p.id, q.id);
}

#[test]
fn sort_summaries_by_each_field() {
    let mut db = Database::new();
    db.create_prompt(&Prompt { created_at: 3, ..sample("bravo", "c", 10) }).unwrap();
    db.create_prompt(&Prompt { created_at: 1, ..sample("alpha", "c", 30) }).unwrap();
    db.create_prompt(&Prompt { created_at: 2, ..sample("charlie", "c", 20) }).unwrap();

    let listed = db.list_prompts(None, None).unwrap();

    let by_name = edisonprompt::sort_summaries(listed.clone(), edisonprompt::SortField::Name);
    let names: Vec<&str> = by_name.iter().map(|s| s.name.as_str()).collect();
    assert_eq!(names, vec!["alpha", "bravo", "charlie"]);

    let by_created = edisonprompt::sort_summaries(listed.clone(), edisonprompt::SortField::Created);
    let created: Vec<&str> = by_created.iter().map(|s| s.name.as_str()).collect();
    assert_eq!(created, vec!["bravo", "charlie", "alpha"]);

    let by_updated = edisonprompt::sort_summaries(listed, edisonprompt::SortField::Updated);
    let updated: Vec<&str> = by_updated.iter().map(|s| s.name.as_str()).collect();
    assert_eq!(updated, vec!["alpha", "charlie", "bravo"]);
}
