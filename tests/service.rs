use skills_index::content::{ErrorResponse, ResponseFormat, SkillTemplate};
use skills_index::meta::{SkillMeta, SubSkillMeta};
use skills_index::requests::{
    default_limit, list_item, request_limit, skill_details, validate_skill_name,
    CreateSkillRequest, SearchQuery, UpdateSkillRequest, ValidationError, DbConfig,
};
use skills_index::store::IndexError;
use skills_index::watch::{next_step, plan_change, ChangeKind, WatchAction, WatchStep};

#[test]
fn skill_names_for_requests() {
    assert!(validate_skill_name("forms").is_ok());
    assert!(validate_skill_name("").is_err());
    assert!(validate_skill_name("a..b").is_err());
    assert!(validate_skill_name("a/b").is_err());
    assert!(validate_skill_name(".hidden").is_err());
    assert!(validate_skill_name(&"x".repeat(101)).is_err());
    assert!(validate_skill_name(&"x".repeat(100)).is_ok());
    assert!(validate_skill_name(&"é".repeat(50)).is_ok());
    assert!(validate_skill_name(&"é".repeat(51)).is_err());
}

#[test]
fn request_field_limits() {
    let ok = CreateSkillRequest { name: "a".into(), description: "d".into(), content: "c".into(), tags: vec!["t".into()] };
    assert!(ok.validate().is_ok());
    let too_many = CreateSkillRequest { tags: vec!["t".to_string(); 21], ..ok };
    assert_eq!(too_many.validate().unwrap_err().error, "Too many tags (max 20)");
    let empty_tag = UpdateSkillRequest { description: None, content: None, tags: Some(vec!["".into()]) };
    assert_eq!(empty_tag.validate().unwrap_err().error, "Tags cannot be empty");
    let long_tag = UpdateSkillRequest { description: None, content: None, tags: Some(vec!["y".repeat(51)]) };
    assert!(long_tag.validate().unwrap_err().error.starts_with("Tag 'yyy"));
    let long_desc = UpdateSkillRequest { description: Some("d".repeat(1001)), content: None, tags: None };
    assert!(long_desc.validate().is_err());
    let wide_desc = UpdateSkillRequest { description: Some("é".repeat(501)), content: None, tags: None };
    assert!(wide_desc.validate().is_err());
    let wide_tag = UpdateSkillRequest { description: None, content: None, tags: Some(vec!["é".repeat(26)]) };
    assert!(wide_tag.validate().is_err());
    assert!(UpdateSkillRequest { description: None, content: None, tags: None }.validate().is_ok());
}

#[test]
fn search_query_limits() {
    assert_eq!(default_limit(), 10);
    assert_eq!(SearchQuery { q: "x".into(), limit: 0 }.checked_limit().unwrap(), 1);
    assert_eq!(SearchQuery { q: "x".into(), limit: 500 }.checked_limit().unwrap(), 100);
    assert_eq!(SearchQuery { q: "x".into(), limit: 7 }.checked_limit().unwrap(), 7);
    assert!(SearchQuery { q: "".into(), limit: 7 }.checked_limit().is_err());
    assert_eq!(request_limit(None), Some(10));
    assert_eq!(request_limit(Some(3)), Some(3));
}

#[test]
fn listing_and_details() {
    let m = SkillMeta {
        name: "forms".into(),
        description: "d".into(),
        tags: vec!["t".into()],
        sub_skills: Some(vec![SubSkillMeta { name: "react".into(), file: "react/SKILL.md".into(), triggers: vec!["useForm".into()] }]),
        source: None,
    };
    let item = list_item(&m);
    assert_eq!(item.file_count, 2);
    assert_eq!(item.sub_skills, vec!["react"]);
    let details = skill_details(&m, "# Forms".into(), true);
    assert_eq!(details.sub_skills[0].file, "react/SKILL.md");
    assert_eq!(details.sub_skills[0].triggers, vec!["useForm"]);
    assert_eq!(details.content, "# Forms");
}

#[test]
fn watcher_plans() {
    let names = vec![Some("b".to_string()), None, Some("a".to_string()), Some("b".to_string())];
    match plan_change(ChangeKind::Modify, &names) {
        WatchAction::Update(v) => assert_eq!(v, vec!["b", "a"]),
        other => panic!("unexpected {:?}", other),
    }
    assert!(matches!(plan_change(ChangeKind::Create, &vec![None]), WatchAction::Rebuild));
    assert!(matches!(plan_change(ChangeKind::Other, &names), WatchAction::Ignore));
    let batch = vec!["a".to_string(), "b".to_string()];
    assert!(matches!(next_step(&batch, 0, false), WatchStep::Update(ref n) if n == "a"));
    assert!(matches!(next_step(&batch, 1, true), WatchStep::Rebuild));
    assert!(matches!(next_step(&batch, 2, false), WatchStep::Done));
}

#[test]
fn errors_and_defaults() {
    assert_eq!(IndexError::NotFound("x".into()).message(), "Not found: x");
    assert_eq!(IndexError::ParseError("x".into()).message(), "Parse error: x");
    assert_eq!(IndexError::ValidationError("x".into()).message(), "Validation error: x");
    assert_eq!(ErrorResponse::from("boom".to_string()).error, "boom");
    assert_eq!(ResponseFormat::default(), ResponseFormat::Markdown);
    assert_eq!(SkillTemplate::default(), SkillTemplate::Standard);
    let v = ValidationError { field: "name".into(), message: "bad".into() };
    assert_eq!(v.to_text(), "name: bad");
    assert_eq!(DbConfig::default().db_path, "creation_station.db");
}
