use skills_index::meta::{SkillMeta, SubSkillMeta};
use skills_index::validation::validate_meta;

fn meta(name: &str, description: &str, subs: Option<Vec<SubSkillMeta>>) -> SkillMeta {
    SkillMeta {
        name: name.to_string(),
        description: description.to_string(),
        tags: vec![],
        sub_skills: subs,
        source: None,
    }
}

fn sub(name: &str, file: &str) -> SubSkillMeta {
    SubSkillMeta { name: name.to_string(), file: file.to_string(), triggers: vec![] }
}

#[test]
fn test_valid_minimal_meta() {
    let m = meta("forms", "Form handling patterns", None);
    assert!(validate_meta(&m).is_ok());
}

#[test]
fn test_valid_full_meta() {
    let m = SkillMeta {
        name: "component-library".to_string(),
        description: "React component patterns".to_string(),
        tags: vec!["react".to_string(), "ui".to_string()],
        sub_skills: Some(vec![SubSkillMeta {
            name: "buttons".to_string(),
            file: "buttons/SKILL.md".to_string(),
            triggers: vec!["Button".to_string()],
        }]),
        source: Some("official".to_string()),
    };
    assert!(validate_meta(&m).is_ok());
}

#[test]
fn test_invalid_name_format() {
    let m = meta("Invalid Name", "Test", None);
    let result = validate_meta(&m);
    assert!(result.is_err());
    assert!(result.unwrap_err()[0].contains("name:"));
}

#[test]
fn test_invalid_name_uppercase() {
    let m = meta("Forms", "Test", None);
    assert!(validate_meta(&m).is_err());
}

#[test]
fn test_empty_description() {
    let m = meta("forms", "", None);
    let result = validate_meta(&m);
    assert!(result.is_err());
    assert!(result.unwrap_err()[0].contains("description:"));
}

#[test]
fn test_invalid_sub_skill_file() {
    let m = meta("forms", "Test", Some(vec![sub("react", "react/SKILL.txt")]));
    let result = validate_meta(&m);
    assert!(result.is_err());
    assert!(result.unwrap_err()[0].contains("must end with .md"));
}

#[test]
fn test_duplicate_sub_skill_names() {
    let m = meta(
        "forms",
        "Test",
        Some(vec![sub("react", "react/SKILL.md"), sub("react", "react2/SKILL.md")]),
    );
    let result = validate_meta(&m);
    assert!(result.is_err());
    assert!(result.unwrap_err().iter().any(|e| e.contains("duplicate")));
}

#[test]
fn test_single_char_name() {
    let m = meta("a", "Single char name", None);
    assert!(validate_meta(&m).is_ok());
}

#[test]
fn name_edge_cases() {
    assert!(validate_meta(&meta("a-b", "d", None)).is_ok());
    assert!(validate_meta(&meta("-ab", "d", None)).is_err());
    assert!(validate_meta(&meta("ab-", "d", None)).is_err());
    assert!(validate_meta(&meta("a--b9", "d", None)).is_ok());
    assert!(validate_meta(&meta("ab\n", "d", None)).is_err());
}

#[test]
fn exact_messages_in_order() {
    let long = "a".repeat(51);
    let m = meta(
        &long,
        "",
        Some(vec![sub("", ""), sub("x", "x/SKILL.txt"), sub("x", "y.md")]),
    );
    let errors = validate_meta(&m).unwrap_err();
    assert_eq!(
        errors,
        vec![
            "name: must be 50 characters or less, got 51".to_string(),
            "description: cannot be empty".to_string(),
            "sub_skills[0].name: cannot be empty".to_string(),
            "sub_skills[0].file: cannot be empty".to_string(),
            "sub_skills[1].file: must end with .md, got 'x/SKILL.txt'".to_string(),
            "sub_skills: duplicate name 'x'".to_string(),
        ]
    );
    let empty = validate_meta(&meta("", "d", None)).unwrap_err();
    assert_eq!(
        empty,
        vec![
            "name: must be lowercase alphanumeric with hyphens, got ''".to_string(),
            "name: cannot be empty".to_string(),
        ]
    );
}
