use skills_index::index::{ContentIndex, ContentIndexEntry};
use skills_index::meta::{SkillMeta, SubSkillMeta};
use skills_index::score::Score;
use skills_index::search::{
    search_all, search_content, search_skills, sort_by_score, MatchType, SearchOptions,
    SearchResult, SearchResults,
};
use skills_index::store::{CombinedIndex, ManifestState, SkillDirScan, SkillDocument};

fn value(s: &Score) -> f64 {
    s.num as f64 / s.den as f64
}

fn scan_of(meta: &SkillMeta) -> SkillDirScan {
    SkillDirScan {
        dir_name: meta.name.clone(),
        manifest: ManifestState::Loaded(meta.clone()),
        escaping_files: vec![],
        documents: vec![SkillDocument {
            sub_skill: None,
            file: "SKILL.md".to_string(),
            content: format!("# {}\n\n{}", meta.name, meta.description),
        }],
    }
}

fn indexed(metas: Vec<SkillMeta>) -> CombinedIndex {
    let scans: Vec<SkillDirScan> = metas.iter().map(scan_of).collect();
    CombinedIndex::rebuild(&scans)
}

fn forms(tags: Vec<&str>, subs: Option<Vec<SubSkillMeta>>) -> SkillMeta {
    SkillMeta {
        name: "forms".to_string(),
        description: "Form handling patterns".to_string(),
        tags: tags.into_iter().map(|t| t.to_string()).collect(),
        sub_skills: subs,
        source: None,
    }
}

#[test]
fn test_match_type_weights() {
    assert!(value(&MatchType::Name.weight()) > value(&MatchType::Content.weight()));
    assert!(value(&MatchType::Triggers.weight()) > value(&MatchType::Tags.weight()));
    assert_eq!(value(&MatchType::Description.weight()), 1.5);
}

#[test]
fn test_search_result_ordering() {
    let results = vec![
        SearchResult::new("low".to_string(), Score::new(3, 10), MatchType::Content),
        SearchResult::new("high".to_string(), Score::new(9, 10), MatchType::Name),
        SearchResult::new("mid".to_string(), Score::new(6, 10), MatchType::Tags),
    ];

    let results = sort_by_score(results);

    assert_eq!(results[0].domain, "high");
    assert_eq!(results[1].domain, "mid");
    assert_eq!(results[2].domain, "low");
}

#[test]
fn ties_keep_input_order() {
    let results = vec![
        SearchResult::new("a".to_string(), Score::new(1, 2), MatchType::Content),
        SearchResult::new("b".to_string(), Score::new(2, 4), MatchType::Content),
        SearchResult::new("c".to_string(), Score::new(3, 4), MatchType::Content),
    ];
    let r = sort_by_score(results);
    let order: Vec<&str> = r.iter().map(|x| x.domain.as_str()).collect();
    assert_eq!(order, vec!["c", "a", "b"]);
}

#[test]
fn test_search_results_truncation() {
    let results = vec![
        SearchResult::new("a".to_string(), Score::new(9, 10), MatchType::Name),
        SearchResult::new("b".to_string(), Score::new(8, 10), MatchType::Name),
        SearchResult::new("c".to_string(), Score::new(7, 10), MatchType::Name),
    ];

    let search_results = SearchResults::new("test".to_string(), results, Some(2));

    assert_eq!(search_results.len(), 2);
    assert_eq!(search_results.total_matches, 3);
    assert!(search_results.truncated);
}

#[test]
fn test_search_by_name() {
    let idx = indexed(vec![forms(vec!["validation"], None)]);
    let results = search_skills(&idx.skill_index, "forms", &SearchOptions::default());

    assert!(!results.is_empty());
    assert_eq!(results.top().unwrap().domain, "forms");
    assert_eq!(results.top().unwrap().match_type, MatchType::Name);
}

#[test]
fn scenario_exact_name_scores_three() {
    let idx = indexed(vec![forms(vec!["validation"], None)]);
    let results = search_skills(&idx.skill_index, "forms", &SearchOptions::default());
    let top = results.top().unwrap();
    assert_eq!(top.match_type, MatchType::Name);
    assert_eq!(value(&top.score), 3.0);
    let partial = search_skills(&idx.skill_index, "form", &SearchOptions::default());
    assert!((value(&partial.top().unwrap().score) - 2.4).abs() < 1e-12);
}

#[test]
fn test_search_by_tag() {
    let idx = indexed(vec![forms(vec!["schema-validation", "input"], None)]);
    let results = search_skills(&idx.skill_index, "schema-validation", &SearchOptions::default());

    assert!(!results.is_empty());
    assert_eq!(results.top().unwrap().match_type, MatchType::Tags);
    assert!((value(&results.top().unwrap().score) - 1.8).abs() < 1e-12);
}

#[test]
fn test_search_by_trigger() {
    let subs = vec![SubSkillMeta {
        name: "react".to_string(),
        file: "react/SKILL.md".to_string(),
        triggers: vec!["useForm".to_string(), "react-hook-form".to_string()],
    }];
    let idx = indexed(vec![forms(vec![], Some(subs))]);
    let results = search_skills(&idx.skill_index, "useForm", &SearchOptions::default());

    assert!(!results.is_empty());
    assert_eq!(results.top().unwrap().match_type, MatchType::Triggers);
    assert_eq!(value(&results.top().unwrap().score), 2.25);
}

#[test]
fn test_search_no_results() {
    let idx = indexed(vec![forms(vec![], None)]);
    let results = search_skills(&idx.skill_index, "nonexistent", &SearchOptions::default());
    assert!(results.is_empty());
}

#[test]
fn description_terms_score_by_fraction() {
    let idx = indexed(vec![forms(vec![], None)]);
    let results = search_skills(&idx.skill_index, "handling zzz", &SearchOptions::default());
    let top = results.top().unwrap();
    assert_eq!(top.match_type, MatchType::Description);
    assert_eq!(value(&top.score), 0.75);
    assert_eq!(top.snippet.as_deref(), Some("Form handling patterns"));
}

#[test]
fn one_result_per_skill_and_ranked() {
    let metas = vec![
        SkillMeta { name: "alpha".into(), description: "about forms".into(), tags: vec![], sub_skills: None, source: None },
        SkillMeta { name: "forms".into(), description: "forms forms".into(), tags: vec!["forms".into()], sub_skills: None, source: None },
        SkillMeta { name: "formsy".into(), description: "x".into(), tags: vec![], sub_skills: None, source: None },
        SkillMeta { name: "zeta".into(), description: "y".into(), tags: vec!["web-forms".into()], sub_skills: None, source: None },
    ];
    let idx = indexed(metas);
    let results = search_skills(&idx.skill_index, "forms", &SearchOptions::with_limit(3));
    assert_eq!(results.total_matches, 4);
    assert!(results.truncated);
    assert_eq!(results.len(), 3);
    let names: Vec<&str> = results.results.iter().map(|r| r.domain.as_str()).collect();
    assert_eq!(names, vec!["forms", "formsy", "zeta"]);
    for w in results.results.windows(2) {
        assert!(value(&w[0].score) >= value(&w[1].score));
    }
    let mut seen = names.clone();
    seen.dedup();
    assert_eq!(seen.len(), names.len());
}

#[test]
fn filters_apply() {
    let metas = vec![
        SkillMeta { name: "forms".into(), description: "d".into(), tags: vec![], sub_skills: None, source: None },
        SkillMeta { name: "other".into(), description: "forms here".into(), tags: vec![], sub_skills: None, source: None },
    ];
    let idx = indexed(metas);
    let only_other = SearchOptions::default().domains(vec!["other".to_string()]);
    let r = search_skills(&idx.skill_index, "forms", &only_other);
    assert_eq!(r.len(), 1);
    assert_eq!(r.results[0].domain, "other");
    let high = SearchOptions::default().min_score(Score::new(2, 1));
    let r = search_skills(&idx.skill_index, "forms", &high);
    assert_eq!(r.len(), 1);
    assert_eq!(r.results[0].domain, "forms");
    let mut types = SearchOptions::default();
    types.match_types = Some(vec![MatchType::Description]);
    let r = search_skills(&idx.skill_index, "forms", &types);
    assert_eq!(r.len(), 1);
    assert_eq!(r.results[0].domain, "other");
}

#[test]
fn scenario_content_score_and_snippet() {
    let mut words = vec!["hook".to_string()];
    for i in 0..98 {
        words.push(format!("w{}", i));
    }
    words.push("hook".to_string());
    let text = words.join(" ");
    let mut content = ContentIndex::new();
    content.insert(ContentIndexEntry::new("react".into(), None, "SKILL.md".into(), text));
    assert_eq!(content.get("react").unwrap().word_count, 100);
    let r = search_content(&content, "hook", &SearchOptions::default());
    assert_eq!(r.total_matches, 1);
    let top = r.top().unwrap();
    assert_eq!(top.match_type, MatchType::Content);
    assert_eq!(value(&top.score), 0.02);
    let snippet = top.snippet.as_ref().unwrap();
    assert!(snippet.contains("hook"));
    assert!(snippet.ends_with("..."));
    assert_eq!(top.file.as_deref(), Some("SKILL.md"));
}

#[test]
fn content_search_sums_terms_and_skips_misses() {
    let mut content = ContentIndex::new();
    content.insert(ContentIndexEntry::new("a".into(), None, "SKILL.md".into(), "x y x".into()));
    content.insert(ContentIndexEntry::new("b".into(), Some("s".into()), "s.md".into(), "nothing".into()));
    let r = search_content(&content, "X Y", &SearchOptions::default());
    assert_eq!(r.total_matches, 1);
    assert_eq!(value(&r.results[0].score), 1.0);
}

#[test]
fn search_all_merges_without_duplicates() {
    let idx = indexed(vec![forms(vec![], None)]);
    let r = search_all(&idx.skill_index, &idx.content_index, "forms", &SearchOptions::default());
    assert_eq!(r.total_matches, 1);
    assert_eq!(r.results[0].match_type, MatchType::Name);
}
