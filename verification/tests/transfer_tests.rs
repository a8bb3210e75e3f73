use edisonprompt::{build_export, import_prompts, Database, ImportStats, MergeStrategy, Prompt};

fn prompt(id: &str, name: &str, content: &str, stamp: i64) -> Prompt {
    Prompt {
        id: id.to_string(),
        name: name.to_string(),
        content: content.to_string(),
        variables: Vec::new(),
        tags: Vec::new(),
        created_at: stamp,
        updated_at: stamp,
    }
}

#[test]
fn import_into_empty_store_creates_everything() {
    let mut db = Database::new();
    let batch = vec![prompt("i1", "one", "c1", 1), prompt("i2", "two", "c2", 2)];
    let stats = import_prompts(&mut db, &batch, MergeStrategy::Skip).unwrap();
    assert_eq!(stats, ImportStats { created: 2, updated: 0, skipped: 0 });
    assert!(db.prompt_exists("one").unwrap());
    assert!(db.prompt_exists("two").unwrap());
}

#[test]
fn import_skip_leaves_existing_untouched() {
    let mut db = Database::new();
    db.create_prompt(&prompt("orig", "foo", "original", 1)).unwrap();
    let batch = vec![prompt("new", "foo", "imported", 2), prompt("n2", "bar", "b", 3)];
    let stats = import_prompts(&mut db, &batch, MergeStrategy::Skip).unwrap();
    assert_eq!(stats, ImportStats { created: 1, updated: 0, skipped: 1 });
    assert_eq!(db.get_prompt("foo").unwrap().content, "original");
    assert_eq!(db.get_prompt("bar").unwrap().content, "b");
}

#[test]
fn import_overwrite_replaces_content() {
    let mut db = Database::new();
    db.create_prompt(&prompt("orig", "foo", "original", 1)).unwrap();
    let batch = vec![prompt("other-id", "foo", "imported", 50)];
    let stats = import_prompts(&mut db, &batch, MergeStrategy::Overwrite).unwrap();
    assert_eq!(stats, ImportStats { created: 0, updated: 1, skipped: 0 });
    let got = db.get_prompt("foo").unwrap();
    assert_eq!(got.content, "imported");
    assert_eq!(got.updated_at, 50);
    // the stored row keeps its identity and creation time
    assert_eq!(got.id, "orig");
    assert_eq!(got.created_at, 1);
}

#[test]
fn import_rename_uses_next_free_suffix() {
    let mut db = Database::new();
    db.create_prompt(&prompt("a", "foo", "existing", 1)).unwrap();
    db.create_prompt(&prompt("b", "foo-1", "also existing", 2)).unwrap();
    let batch = vec![prompt("c", "foo", "imported", 3)];
    let stats = import_prompts(&mut db, &batch, MergeStrategy::Rename).unwrap();
    assert_eq!(stats, ImportStats { created: 1, updated: 0, skipped: 0 });
    assert_eq!(db.get_prompt("foo-2").unwrap().content, "imported");
    assert_eq!(db.get_prompt("foo").unwrap().content, "existing");
    assert_eq!(db.get_prompt("foo-1").unwrap().content, "also existing");
}

#[test]
fn import_rename_starts_at_one() {
    let mut db = Database::new();
    db.create_prompt(&prompt("a", "solo", "existing", 1)).unwrap();
    let batch = vec![prompt("b", "solo", "imported", 2)];
    import_prompts(&mut db, &batch, MergeStrategy::Rename).unwrap();
    assert_eq!(db.get_prompt("solo-1").unwrap().content, "imported");
}

#[test]
fn import_propagates_constraint_failures() {
    let mut db = Database::new();
    let batch = vec![prompt("ok", "good", "fine", 1), prompt("bad", "broken", "", 2)];
    assert!(import_prompts(&mut db, &batch, MergeStrategy::Skip).is_err());
    // the prompt before the failing one stays imported: each is its own unit
    assert!(db.prompt_exists("good").unwrap());
    assert!(!db.prompt_exists("broken").unwrap());
}

#[test]
fn export_carries_version_and_all_prompts() {
    let mut db = Database::new();
    db.create_prompt(&prompt("a", "older", "c1", 10)).unwrap();
    db.create_prompt(&prompt("b", "newer", "c2", 20)).unwrap();
    let doc = build_export(&db, "1.2.3".to_string()).unwrap();
    assert_eq!(doc.version, "1.2.3");
    assert_eq!(doc.prompts.len(), 2);
    assert_eq!(doc.prompts[0].name, "newer");
    assert_eq!(doc.prompts[1].name, "older");
}

#[test]
fn export_then_import_round_trips() {
    let mut db = Database::new();
    let mut p = prompt("rt", "keeper", "content {{x}}", 9);
    p.variables = vec![edisonprompt::Variable::new("x".to_string())];
    p.tags = vec!["t1".to_string()];
    db.create_prompt(&p).unwrap();

    let doc = build_export(&db, "v".to_string()).unwrap();
    let mut db2 = Database::new();
    let stats = import_prompts(&mut db2, &doc.prompts, MergeStrategy::Skip).unwrap();
    assert_eq!(stats.created, 1);
    let got = db2.get_prompt("keeper").unwrap();
    assert_eq!(got.id, "rt");
    assert_eq!(got.content, "content {{x}}");
    assert_eq!(got.variables.len(), 1);
    assert_eq!(got.tags, vec!["t1"]);
}
