use edisonprompt::{parse_variable, validate_prompt_name, PromptedsError, TemplateEngine, Variable};

fn bindings(pairs: &[(&str, &str)]) -> Vec<(String, String)> {
    pairs.iter().map(|(k, v)| (k.to_string(), v.to_string())).collect()
}

#[test]
fn test_extract_variables() {
    let engine = TemplateEngine::new();
    let template = "Hello {{name}}, your {{type}} is ready!";
    let vars = engine.extract_variables(template).unwrap();
    assert_eq!(vars, vec!["name", "type"]);
}

#[test]
fn test_render_template() {
    let engine = TemplateEngine::new();
    let template = "Hello {{name}}!";
    let vars = bindings(&[("name", "World")]);
    let result = engine.render(template, &vars).unwrap();
    assert_eq!(result, "Hello World!");
}

#[test]
fn test_missing_variables() {
    let engine = TemplateEngine::new();
    let template = "Hello {{name}}, your {{type}} is ready!";
    let provided = bindings(&[("name", "John")]);
    let missing = engine.get_missing_variables(template, &provided).unwrap();
    assert_eq!(missing, vec!["type"]);
}

#[test]
fn test_validate_variable_name() {
    assert!(TemplateEngine::validate_variable_name("valid_name").is_ok());
    assert!(TemplateEngine::validate_variable_name("_underscore").is_ok());
    assert!(TemplateEngine::validate_variable_name("name123").is_ok());
    assert!(TemplateEngine::validate_variable_name("123invalid").is_err());
    assert!(TemplateEngine::validate_variable_name("").is_err());
    assert!(TemplateEngine::validate_variable_name("invalid-name").is_err());
}

#[test]
fn extract_keeps_first_occurrence_order() {
    let engine = TemplateEngine::new();
    let vars = engine.extract_variables("{{b}} {{a}} {{b}} {{c}} {{a}}").unwrap();
    assert_eq!(vars, vec!["b", "a", "c"]);
}

#[test]
fn extract_is_idempotent() {
    let engine = TemplateEngine::new();
    let template = "{{x}} and {{y}} and {{x}}";
    let first = engine.extract_variables(template).unwrap();
    let second = engine.extract_variables(template).unwrap();
    assert_eq!(first, second);
}

#[test]
fn extract_treats_malformed_as_literal() {
    let engine = TemplateEngine::new();
    assert_eq!(engine.extract_variables("{{unclosed").unwrap(), Vec::<String>::new());
    assert_eq!(engine.extract_variables("{{1bad}} {{good}}").unwrap(), vec!["good"]);
    assert_eq!(engine.extract_variables("{ {not} }").unwrap(), Vec::<String>::new());
}

#[test]
fn extract_accepts_inner_whitespace() {
    let engine = TemplateEngine::new();
    assert_eq!(engine.extract_variables("a {{  spaced_name  }} b").unwrap(), vec!["spaced_name"]);
}

#[test]
fn render_without_placeholders_is_identity() {
    let engine = TemplateEngine::new();
    let template = "no placeholders here, just text.";
    let result = engine.render(template, &bindings(&[("unused", "v")])).unwrap();
    assert_eq!(result, template);
}

#[test]
fn render_missing_variable_renders_empty() {
    let engine = TemplateEngine::new();
    let result = engine.render("a{{gone}}b", &bindings(&[])).unwrap();
    assert_eq!(result, "ab");
}

#[test]
fn render_substitutes_every_occurrence() {
    let engine = TemplateEngine::new();
    let result = engine.render("{{x}}-{{x}}-{{x}}", &bindings(&[("x", "3")])).unwrap();
    assert_eq!(result, "3-3-3");
}

#[test]
fn render_later_binding_wins() {
    let engine = TemplateEngine::new();
    let result = engine.render("{{k}}", &bindings(&[("k", "first"), ("k", "second")])).unwrap();
    assert_eq!(result, "second");
}

#[test]
fn render_rejects_unclosed_placeholder() {
    let engine = TemplateEngine::new();
    let err = engine.render("broken {{oops", &bindings(&[])).unwrap_err();
    assert!(matches!(err, PromptedsError::TemplateValidation { .. }));
    assert_eq!(err.exit_code(), 4);
}

#[test]
fn validate_template_accepts_well_formed() {
    let engine = TemplateEngine::new();
    assert!(engine.validate_template("{{a}} and {{ b }}").is_ok());
    assert!(engine.validate_template("plain").is_ok());
    assert!(engine.validate_template("{{a}").is_err());
    assert!(engine.validate_template("{{}}").is_err());
}

#[test]
fn missing_variables_empty_when_all_provided() {
    let engine = TemplateEngine::new();
    let provided = bindings(&[("name", "x"), ("type", "y")]);
    let missing = engine
        .get_missing_variables("Hello {{name}}, your {{type}} is ready!", &provided)
        .unwrap();
    assert_eq!(missing, Vec::<String>::new());
}

#[test]
fn rebuild_variables_preserves_descriptions() {
    let engine = TemplateEngine::new();
    let existing = vec![
        Variable::new("kept".to_string())
            .with_description("a description".to_string())
            .with_default("d".to_string()),
        Variable::new("dropped".to_string()),
    ];
    let rebuilt = engine.rebuild_variables("{{kept}} {{fresh}}", &existing);
    assert_eq!(rebuilt.len(), 2);
    assert_eq!(rebuilt[0].name, "kept");
    assert_eq!(rebuilt[0].description.as_deref(), Some("a description"));
    assert_eq!(rebuilt[0].default_value.as_deref(), Some("d"));
    assert_eq!(rebuilt[1].name, "fresh");
    assert!(rebuilt[1].description.is_none());
    assert!(rebuilt[1].default_value.is_none());
}

#[test]
fn apply_defaults_fills_only_missing() {
    let vars = vec![
        Variable::new("a".to_string()).with_default("def_a".to_string()),
        Variable::new("b".to_string()).with_default("def_b".to_string()),
        Variable::new("c".to_string()),
    ];
    let provided = bindings(&[("a", "given")]);
    let resolved = edisonprompt::apply_defaults(&vars, &provided);
    let engine = TemplateEngine::new();
    let result = engine.render("{{a}}/{{b}}/{{c}}", &resolved).unwrap();
    assert_eq!(result, "given/def_b/");
}

#[test]
fn parse_variable_splits_at_first_equals() {
    assert_eq!(parse_variable("k=v").unwrap(), ("k".to_string(), "v".to_string()));
    assert_eq!(parse_variable("k=v=w").unwrap(), ("k".to_string(), "v=w".to_string()));
    assert_eq!(parse_variable("=x").unwrap(), ("".to_string(), "x".to_string()));
    assert!(parse_variable("no_equals").is_err());
}

#[test]
fn prompt_name_grammar() {
    assert!(validate_prompt_name("good-name_1").is_ok());
    assert!(validate_prompt_name("").is_err());
    assert!(validate_prompt_name("has space").is_err());
    assert!(validate_prompt_name(&"x".repeat(100)).is_ok());
    assert!(validate_prompt_name(&"x".repeat(101)).is_err());
    let err = validate_prompt_name("bad!").unwrap_err();
    assert_eq!(err.exit_code(), 3);
}

#[test]
fn welcome_scenario_extracts_and_renders() {
    let engine = TemplateEngine::new();
    let content = "Hello {{name}}, welcome to {{place}}!";
    let vars = engine.extract_variables(content).unwrap();
    assert_eq!(vars, vec!["name", "place"]);
    let values = bindings(&[("name", "Ana"), ("place", "Rust City")]);
    let rendered = engine.render(content, &values).unwrap();
    assert_eq!(rendered, "Hello Ana, welcome to Rust City!");
}
