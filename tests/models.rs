use skills_index::content::{BatchRequest, BatchResponseItem, SkillContent};
use skills_index::index::{ContentIndex, ContentIndexEntry, SkillIndex};
use skills_index::meta::{SkillMeta, SubSkillMeta};
use skills_index::report::ValidationResult;

fn meta(name: &str, description: &str, tags: Vec<&str>) -> SkillMeta {
    SkillMeta {
        name: name.to_string(),
        description: description.to_string(),
        tags: tags.into_iter().map(|t| t.to_string()).collect(),
        sub_skills: None,
        source: None,
    }
}

#[test]
fn test_skill_content_builder() {
    let content = SkillContent::new("forms".to_string(), "# Forms\n\nContent...".to_string())
        .with_sub_skills(vec!["react".to_string(), "validation".to_string()])
        .with_references(true);

    assert_eq!(content.name, "forms");
    assert_eq!(content.sub_skills.len(), 2);
    assert!(content.has_references);
}

#[test]
fn test_batch_request() {
    let skill_req = BatchRequest::skill("forms".to_string());
    assert!(skill_req.sub_skill.is_none());

    let sub_req = BatchRequest::sub_skill("forms".to_string(), "react".to_string());
    assert_eq!(sub_req.sub_skill, Some("react".to_string()));
}

#[test]
fn test_batch_response_item() {
    let error = BatchResponseItem::error("forms".to_string(), "Not found".to_string());
    assert!(error.is_error());

    let skill = BatchResponseItem::Skill(SkillContent::new(
        "forms".to_string(),
        "content".to_string(),
    ));
    assert!(!skill.is_error());
}

#[test]
fn test_skill_index_operations() {
    let m = meta("test", "Test skill", vec![]);
    let index = SkillIndex::with_skills(vec![m.clone()], vec![]);
    assert_eq!(index.len(), 1);
    assert!(!index.has_errors());
    assert!(index.find("test").is_some());
    assert!(index.find("nonexistent").is_none());
}

#[test]
fn test_content_index_entry() {
    let entry = ContentIndexEntry::new(
        "forms".to_string(),
        Some("react".to_string()),
        "react/SKILL.md".to_string(),
        "# React Forms\n\nUse `useForm` hook for validation.".to_string(),
    );

    assert_eq!(entry.key(), "forms:react");
    assert!(entry.matches("useForm"));
    assert!(entry.matches("USEFORM"));
    assert!(!entry.matches("angular"));
    assert_eq!(entry.headings, vec!["React Forms"]);
}

#[test]
fn test_content_index() {
    let mut index = ContentIndex::new();

    let entry1 = ContentIndexEntry::new(
        "forms".to_string(),
        None,
        "SKILL.md".to_string(),
        "Form handling patterns".to_string(),
    );

    let entry2 = ContentIndexEntry::new(
        "forms".to_string(),
        Some("react".to_string()),
        "react/SKILL.md".to_string(),
        "React form patterns".to_string(),
    );

    index.insert(entry1);
    index.insert(entry2);

    assert_eq!(index.len(), 2);
    assert!(index.get("forms").is_some());
    assert!(index.get("forms:react").is_some());
    assert_eq!(index.get_domain_entries("forms").len(), 2);
}

#[test]
fn content_index_insert_replaces_same_document() {
    let mut index = ContentIndex::new();
    index.insert(ContentIndexEntry::new("a".into(), None, "SKILL.md".into(), "one".into()));
    index.insert(ContentIndexEntry::new("a".into(), None, "references/x.md".into(), "two".into()));
    assert_eq!(index.len(), 2);
    assert_eq!(index.get("a").unwrap().content, "one");
    assert_eq!(index.get("a:references/x.md").unwrap().content, "two");
    index.insert(ContentIndexEntry::new("a".into(), None, "SKILL.md".into(), "three".into()));
    assert_eq!(index.len(), 2);
    assert_eq!(index.get("a").unwrap().content, "three");
    index.remove_domain("a");
    assert!(index.is_empty());
}

#[test]
fn content_entry_counts_words_and_folds_case() {
    let entry = ContentIndexEntry::new(
        "d".into(),
        None,
        "SKILL.md".into(),
        "  Hook the HOOK\r\n## Title ##  \n#Second\nplain".into(),
    );
    assert_eq!(entry.word_count, 8);
    assert_eq!(entry.content, "  hook the hook\r\n## title ##  \n#second\nplain");
    assert_eq!(entry.headings, vec!["Title ##", "Second"]);
    assert_eq!(entry.count_matches("hook"), 2);
    assert_eq!(entry.count_matches("aa"), 0);
    assert_eq!(entry.key(), "d");
}

#[test]
fn count_matches_is_non_overlapping() {
    let entry = ContentIndexEntry::new("d".into(), None, "f".into(), "aaaa".into());
    assert_eq!(entry.count_matches("aa"), 2);
    assert_eq!(entry.count_matches(""), 5);
}

#[test]
fn test_all_triggers() {
    let m = SkillMeta {
        name: "forms".to_string(),
        description: "Form handling".to_string(),
        tags: vec!["forms".to_string(), "input".to_string()],
        sub_skills: Some(vec![SubSkillMeta {
            name: "react".to_string(),
            file: "react/SKILL.md".to_string(),
            triggers: vec!["useForm".to_string()],
        }]),
        source: None,
    };

    let triggers = m.all_triggers();
    assert!(triggers.contains(&"forms".to_string()));
    assert!(triggers.contains(&"input".to_string()));
    assert!(triggers.contains(&"useForm".to_string()));
    assert_eq!(triggers, vec!["forms", "input", "useForm"]);
}

#[test]
fn sub_skill_lookup() {
    let m = SkillMeta {
        name: "forms".to_string(),
        description: "Form handling patterns".to_string(),
        tags: vec![],
        sub_skills: Some(vec![
            SubSkillMeta { name: "react".into(), file: "react/SKILL.md".into(), triggers: vec!["useForm".into(), "react-hook-form".into()] },
            SubSkillMeta { name: "validation".into(), file: "validation/SKILL.md".into(), triggers: vec![] },
        ]),
        source: Some("official".into()),
    };
    assert!(m.has_sub_skills());
    assert_eq!(m.sub_skill_names(), vec!["react", "validation"]);
    let react = m.find_sub_skill("react").unwrap();
    assert_eq!(react.triggers, vec!["useForm", "react-hook-form"]);
    assert!(m.find_sub_skill("vue").is_none());
    assert!(!meta("x", "y", vec![]).has_sub_skills());
}

#[test]
fn test_validation_result() {
    let mut result = ValidationResult::pass(10);
    assert!(result.valid);

    result.add_error("Missing _meta.json".to_string());
    assert!(!result.valid);
    assert_eq!(result.errors.len(), 1);

    result.add_warning("No tags defined".to_string());
    assert_eq!(result.warnings.len(), 1);
}

#[test]
fn validation_result_merge() {
    let mut a = ValidationResult::pass(2);
    a.add_warning("w".to_string());
    let b = ValidationResult::fail(vec!["e".to_string()], 3);
    a.merge(b);
    assert_eq!(a.skills_checked, 5);
    assert_eq!(a.errors, vec!["e"]);
    assert_eq!(a.warnings, vec!["w"]);
    assert!(!a.valid);
}

#[test]
fn entry_folds_non_ascii_case() {
    let entry = ContentIndexEntry::new("d".into(), None, "f".into(), "ÄB Straße".into());
    assert_eq!(entry.content, "äb straße");
    assert!(entry.matches("STRASSE") == false);
    assert!(entry.matches("äB"));
}

#[test]
fn test_usage_stats_tracking() {
    let mut stats = skills_index::stats::UsageStats::new();

    stats.record_tool_call("list_skills");
    stats.record_tool_call("list_skills");
    stats.record_tool_call("get_skill");
    stats.record_skill_load("forms");
    stats.record_search("validation".to_string(), 5);

    assert_eq!(stats.total_tool_calls(), 3);
    assert_eq!(stats.tool_count("list_skills"), 2);
    assert_eq!(stats.total_skill_loads(), 1);
    assert_eq!(stats.searches.len(), 1);
}

#[test]
fn stats_rank_trim_and_format() {
    let mut stats = skills_index::stats::UsageStats::new();
    stats.record_tool_call("a");
    stats.record_tool_call("b");
    stats.record_tool_call("b");
    stats.record_tool_call("c");
    let top: Vec<(String, u64)> = stats.top_tools(2).into_iter().map(|c| (c.name, c.count)).collect();
    assert_eq!(top, vec![("b".to_string(), 2), ("a".to_string(), 1)]);
    assert_eq!(stats.skill_count("none"), 0);
    for i in 0..105 {
        stats.record_search(format!("q{}", i), i);
    }
    assert_eq!(stats.searches.len(), 100);
    assert_eq!(stats.searches[0].query, "q5");
    let recent = stats.recent_searches(2);
    assert_eq!(recent[0].query, "q104");
    assert_eq!(recent[1].query, "q103");
    assert_eq!(skills_index::stats::format_uptime(42), "42s");
    assert_eq!(skills_index::stats::format_uptime(185), "3m 5s");
    assert_eq!(skills_index::stats::format_uptime(7200), "2h 0m");
    assert_eq!(skills_index::stats::format_uptime(100800), "1d 4h");
    assert_eq!(stats.uptime_at(stats.start_time + 5999), 5);
    assert_eq!(stats.uptime_at(stats.start_time - 1), 0);
    assert!(stats.uptime_string().ends_with('s'));
}
