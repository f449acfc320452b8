use skills_index::index::SkillIndex;
use skills_index::meta::{SkillMeta, SubSkillMeta};
use skills_index::report::{validate_all, FileState, SkillFiles};
use skills_index::requests::list_skills;
use skills_index::search::{search_skills, SearchOptions};
use skills_index::store::{
    check_sub_skill_path, load_skill, skill_from_path, validate_sub_skill_path, CombinedIndex,
    DocumentRead, IndexError, ManifestState, PathResolution, SkillDirScan, SkillDocument,
};

fn meta(name: &str, description: &str) -> SkillMeta {
    SkillMeta {
        name: name.to_string(),
        description: description.to_string(),
        tags: vec![],
        sub_skills: None,
        source: None,
    }
}

fn doc(sub: Option<&str>, file: &str, content: &str) -> SkillDocument {
    SkillDocument { sub_skill: sub.map(|s| s.to_string()), file: file.to_string(), content: content.to_string() }
}

fn scan(m: SkillMeta) -> SkillDirScan {
    let text = format!("# {}\n\n{}", m.name, m.description);
    SkillDirScan {
        dir_name: m.name.clone(),
        manifest: ManifestState::Loaded(m),
        escaping_files: vec![],
        documents: vec![doc(None, "SKILL.md", &text)],
    }
}

fn names(index: &SkillIndex) -> Vec<String> {
    index.skills.iter().map(|s| s.name.clone()).collect()
}

#[test]
fn test_indexer_basic() {
    let idx = CombinedIndex::rebuild(&vec![scan(meta("test-skill", "A test skill"))]);
    let index = &idx.skill_index;
    assert_eq!(index.len(), 1);
    assert!(index.find("test-skill").is_some());
}

#[test]
fn test_read_skill_content() {
    let idx = CombinedIndex::rebuild(&vec![scan(meta("forms", "Form handling patterns"))]);
    let read = DocumentRead::Read("# forms\n\nForm handling patterns".to_string());
    let content = idx.skill_content("forms", read, false).unwrap();
    assert_eq!(content.name, "forms");
    assert!(content.content.contains("Form handling patterns"));
}

#[test]
fn test_missing_skill() {
    let idx = CombinedIndex::rebuild(&vec![]);
    let result = idx.skill_content("nonexistent", DocumentRead::Missing, false);
    assert!(result.is_err());
}

#[test]
fn rebuild_sorts_skips_and_records_errors() {
    let scans = vec![
        scan(meta("zeta", "z")),
        scan(meta("alpha", "a")),
        SkillDirScan { dir_name: ".git".into(), manifest: ManifestState::Missing, escaping_files: vec![], documents: vec![] },
        SkillDirScan { dir_name: "_drafts".into(), manifest: ManifestState::Loaded(meta("drafts", "d")), escaping_files: vec![], documents: vec![] },
        SkillDirScan { dir_name: "empty".into(), manifest: ManifestState::Missing, escaping_files: vec![], documents: vec![] },
        SkillDirScan { dir_name: "broken".into(), manifest: ManifestState::Malformed("bad json".into()), escaping_files: vec![], documents: vec![] },
        scan(meta("Bad Name", "b")),
    ];
    let idx = CombinedIndex::rebuild(&scans);
    assert_eq!(names(&idx.skill_index), vec!["Bad Name", "alpha", "zeta"]);
    assert_eq!(idx.content_index.len(), 3);
    assert_eq!(
        idx.skill_index.validation_errors,
        vec![
            "empty: Missing _meta.json".to_string(),
            "broken: Parse error: bad json".to_string(),
            "Bad Name: name: must be lowercase alphanumeric with hyphens, got 'Bad Name'".to_string(),
        ]
    );
}

#[test]
fn rebuild_is_deterministic() {
    let scans = vec![scan(meta("b", "two")), scan(meta("a", "one"))];
    let x = CombinedIndex::rebuild(&scans);
    let y = CombinedIndex::rebuild(&scans);
    assert_eq!(names(&x.skill_index), names(&y.skill_index));
    let kx: Vec<(String, String, usize)> = x.content_index.entries.iter().map(|e| (e.key(), e.content.clone(), e.word_count)).collect();
    let ky: Vec<(String, String, usize)> = y.content_index.entries.iter().map(|e| (e.key(), e.content.clone(), e.word_count)).collect();
    assert_eq!(kx, ky);
    assert_eq!(x.skill_index.validation_errors, y.skill_index.validation_errors);
}

#[test]
fn round_trip_manifest_and_document() {
    let mut m = meta("forms", "Form handling patterns");
    m.tags = vec!["validation".into(), "input".into()];
    m.sub_skills = Some(vec![SubSkillMeta { name: "react".into(), file: "react/SKILL.md".into(), triggers: vec!["useForm".into()] }]);
    let text = "# Forms\n\nbody text\n";
    let s = SkillDirScan {
        dir_name: "forms".into(),
        manifest: ManifestState::Loaded(m),
        escaping_files: vec![],
        documents: vec![doc(None, "SKILL.md", text), doc(Some("react"), "react/SKILL.md", "# React")],
    };
    let idx = CombinedIndex::rebuild(&vec![s]);
    let back = idx.skill_content("forms", DocumentRead::Read(text.to_string()), true).unwrap();
    assert_eq!(back.content, text);
    assert_eq!(back.sub_skills, vec!["react"]);
    assert!(back.has_references);
    let meta_back = idx.get_skill_meta("forms").unwrap();
    assert_eq!(meta_back.tags, vec!["validation", "input"]);
    assert_eq!(idx.content_index.len(), 2);
    assert!(idx.content_index.get("forms:react").is_some());
}

#[test]
fn update_then_delete_twice() {
    let mut idx = CombinedIndex::rebuild(&vec![scan(meta("b", "two")), scan(meta("c", "three"))]);
    let new = scan(meta("a", "one"));
    idx.update_skill("a", Some(&new)).unwrap();
    assert_eq!(names(&idx.skill_index), vec!["a", "b", "c"]);
    assert_eq!(idx.content_index.len(), 3);
    assert!(idx.update_skill("b", None).is_ok());
    assert_eq!(names(&idx.skill_index), vec!["a", "c"]);
    assert!(idx.content_index.get_domain_entries("b").is_empty());
    assert!(idx.update_skill("b", None).is_ok());
    assert_eq!(names(&idx.skill_index), vec!["a", "c"]);
    assert_eq!(idx.content_index.len(), 2);
}

#[test]
fn update_failure_leaves_index() {
    let mut idx = CombinedIndex::rebuild(&vec![scan(meta("a", "one"))]);
    let bad = SkillDirScan { dir_name: "a".into(), manifest: ManifestState::Unreadable("denied".into()), escaping_files: vec![], documents: vec![] };
    match idx.update_skill("a", Some(&bad)) {
        Err(IndexError::ReadError(m)) => assert_eq!(m, "denied"),
        other => panic!("unexpected {:?}", other),
    }
    assert_eq!(names(&idx.skill_index), vec!["a"]);
    let missing = SkillDirScan { dir_name: "a".into(), manifest: ManifestState::Missing, escaping_files: vec![], documents: vec![] };
    assert!(idx.update_skill("a", Some(&missing)).is_ok());
    assert!(idx.skill_index.is_empty());
    assert!(idx.content_index.is_empty());
}

#[test]
fn escaping_sub_skill_is_rejected() {
    let mut m = meta("forms", "Form handling patterns");
    m.sub_skills = Some(vec![SubSkillMeta { name: "x".into(), file: "../outside/SKILL.md".into(), triggers: vec![] }]);
    let s = SkillDirScan {
        dir_name: "forms".into(),
        manifest: ManifestState::Loaded(m),
        escaping_files: vec![],
        documents: vec![doc(None, "SKILL.md", "# forms"), doc(Some("x"), "../outside/SKILL.md", "secret")],
    };
    match load_skill(&s) {
        Err(IndexError::ValidationError(msg)) => assert!(msg.contains("escapes skill directory")),
        _ => panic!("expected a validation error"),
    }
    let idx = CombinedIndex::rebuild(&vec![s]);
    assert!(idx.skill_index.is_empty());
    assert!(idx.content_index.is_empty());
    assert_eq!(idx.skill_index.validation_errors.len(), 1);
    assert!(idx.skill_index.validation_errors[0].starts_with("forms: Validation error:"));
}

#[test]
fn sub_skill_paths() {
    assert!(check_sub_skill_path("react/SKILL.md").is_ok());
    assert!(matches!(check_sub_skill_path("/etc/passwd"), Err(IndexError::ValidationError(_))));
    assert!(matches!(check_sub_skill_path("C:x.md"), Err(IndexError::ValidationError(_))));
    assert!(matches!(check_sub_skill_path("a/../b.md"), Err(IndexError::ValidationError(_))));
    assert!(validate_sub_skill_path("a.md", &PathResolution::Inside).is_ok());
    assert!(matches!(validate_sub_skill_path("a.md", &PathResolution::Outside), Err(IndexError::ValidationError(_))));
    assert!(matches!(validate_sub_skill_path("a.md", &PathResolution::Missing("x/a.md".into())), Err(IndexError::NotFound(_))));
    assert!(matches!(validate_sub_skill_path("a.md", &PathResolution::Failed("io".into())), Err(IndexError::ReadError(_))));
}

#[test]
fn sub_skill_reads() {
    let mut m = meta("forms", "d");
    m.sub_skills = Some(vec![SubSkillMeta { name: "react".into(), file: "react/SKILL.md".into(), triggers: vec![] }]);
    let idx = CombinedIndex::rebuild(&vec![scan(m)]);
    assert_eq!(idx.sub_skill_file("forms", "react").unwrap(), "react/SKILL.md");
    assert!(matches!(idx.sub_skill_file("forms", "vue"), Err(IndexError::NotFound(_))));
    assert!(matches!(idx.sub_skill_file("nope", "react"), Err(IndexError::NotFound(_))));
    let c = idx
        .sub_skill_content("forms", "react", &PathResolution::Inside, DocumentRead::Read("# React".into()))
        .unwrap();
    assert_eq!(c.content, "# React");
    assert_eq!(c.domain, "forms");
    let e = idx.sub_skill_content("forms", "react", &PathResolution::Inside, DocumentRead::Failed("io".into()));
    assert_eq!(e.unwrap_err().message(), "Read error: io");
}

#[test]
fn path_to_skill() {
    let root = vec!["/".to_string(), "skills".to_string()];
    let p = |v: &[&str]| v.iter().map(|s| s.to_string()).collect::<Vec<String>>();
    assert_eq!(skill_from_path(&root, &p(&["/", "skills", "forms", "SKILL.md"])), Some("forms".to_string()));
    assert_eq!(skill_from_path(&root, &p(&["/", "skills", ".git", "x"])), None);
    assert_eq!(skill_from_path(&root, &p(&["/", "skills", "_tmp"])), None);
    assert_eq!(skill_from_path(&root, &p(&["/", "skills"])), None);
    assert_eq!(skill_from_path(&root, &p(&["/", "other", "forms"])), None);
}

fn files(md: FileState) -> SkillFiles {
    SkillFiles { skill_md: md, missing_sub_files: vec![], subdirs_with_skill_md: vec![] }
}

#[test]
fn test_validate_valid_skill() {
    let mut m = meta("forms", "Form handling patterns");
    m.tags = vec!["validation".into()];
    let idx = CombinedIndex::rebuild(&vec![scan(m)]);
    let result = validate_all(&idx.skill_index, &vec![files(FileState::Present)]);
    assert!(result.valid);
    assert!(result.errors.is_empty());
}

#[test]
fn test_validate_missing_skill_md() {
    let idx = CombinedIndex::rebuild(&vec![scan(meta("forms", "Form handling patterns"))]);
    let result = validate_all(&idx.skill_index, &vec![files(FileState::Missing)]);
    assert!(!result.valid);
    assert!(result.errors.iter().any(|e| e.contains("Missing SKILL.md")));
}

#[test]
fn test_validate_missing_sub_skill_file() {
    let mut m = meta("forms", "Form handling patterns");
    m.sub_skills = Some(vec![SubSkillMeta { name: "react".into(), file: "react/SKILL.md".into(), triggers: vec![] }]);
    let idx = CombinedIndex::rebuild(&vec![scan(m)]);
    let f = SkillFiles {
        skill_md: FileState::Present,
        missing_sub_files: vec!["react/SKILL.md".into()],
        subdirs_with_skill_md: vec![],
    };
    let result = validate_all(&idx.skill_index, &vec![f]);
    assert!(!result.valid);
    assert!(result.errors.iter().any(|e| e.contains("Sub-skill file not found")));
}

#[test]
fn test_validate_no_tags_warning() {
    let idx = CombinedIndex::rebuild(&vec![scan(meta("forms", "Form handling patterns"))]);
    let result = validate_all(&idx.skill_index, &vec![files(FileState::Present)]);
    assert!(result.valid);
    assert!(result.warnings.iter().any(|w| w.contains("No tags")));
}

#[test]
fn orphaned_and_empty_documents_warn() {
    let idx = CombinedIndex::rebuild(&vec![scan(meta("forms", "Form handling patterns"))]);
    let f = SkillFiles {
        skill_md: FileState::Empty,
        missing_sub_files: vec![],
        subdirs_with_skill_md: vec!["react".into(), "references".into(), ".hidden".into()],
    };
    let result = validate_all(&idx.skill_index, &vec![f]);
    assert_eq!(
        result.warnings,
        vec![
            "forms: SKILL.md is empty".to_string(),
            "forms: Unreferenced sub-skill file: react/SKILL.md".to_string(),
            "forms: No tags or sub_skills defined (reduces discoverability)".to_string(),
        ]
    );
}

#[test]
fn tools_test_list_skills() {
    let idx = CombinedIndex::rebuild(&vec![scan(meta("test-skill", "A test skill"))]);
    let response = list_skills(&idx.skill_index);
    assert_eq!(response.total, 1);
    assert_eq!(response.skills[0].name, "test-skill");
}

#[test]
fn tools_test_get_skill() {
    let idx = CombinedIndex::rebuild(&vec![scan(meta("test-skill", "A test skill"))]);
    let read = DocumentRead::Read("# Test Skill\n\nContent here.".to_string());
    let response = idx.skill_content("test-skill", read, false).unwrap();
    assert_eq!(response.name, "test-skill");
    assert!(response.content.contains("Test Skill"));
}

#[test]
fn test_search_skills() {
    let idx = CombinedIndex::rebuild(&vec![scan(meta("test-skill", "A test skill"))]);
    let response = search_skills(&idx.skill_index, "test", &SearchOptions::with_limit(10));
    assert!(!response.is_empty());
}

#[test]
fn reference_extensions() {
    assert!(skills_index::store::is_markdown_extension("md"));
    assert!(skills_index::store::is_markdown_extension("markdown"));
    assert!(!skills_index::store::is_markdown_extension("txt"));
    assert!(!skills_index::store::is_markdown_extension("MD"));
}

#[test]
fn references_get_their_own_entries() {
    let s = SkillDirScan {
        dir_name: "forms".into(),
        manifest: ManifestState::Loaded(meta("forms", "d")),
        escaping_files: vec![],
        documents: vec![
            doc(None, "SKILL.md", "primary"),
            doc(None, "references/a.md", "first ref"),
            doc(None, "references/b.md", "second ref"),
        ],
    };
    let idx = CombinedIndex::rebuild(&vec![s]);
    assert_eq!(idx.content_index.len(), 3);
    assert_eq!(idx.content_index.get("forms").unwrap().content, "primary");
    assert_eq!(idx.content_index.get("forms:references/b.md").unwrap().content, "second ref");
}

#[test]
fn manifest_must_be_named_after_its_directory() {
    let s = SkillDirScan {
        dir_name: "forms".into(),
        manifest: ManifestState::Loaded(meta("other", "d")),
        escaping_files: vec![],
        documents: vec![doc(None, "SKILL.md", "x")],
    };
    match load_skill(&s) {
        Err(IndexError::ValidationError(m)) => assert_eq!(m, "Manifest name 'other' does not match directory 'forms'"),
        _ => panic!("expected a validation error"),
    }
    let mut idx = CombinedIndex::rebuild(&vec![s]);
    assert!(idx.skill_index.is_empty());
    assert!(idx.content_index.is_empty());
    let good = scan(meta("b", "two"));
    assert!(matches!(idx.update_skill("a", Some(&good)), Err(IndexError::ValidationError(_))));
    assert!(idx.skill_index.is_empty());
}

#[test]
fn update_keeps_other_skills() {
    let mut idx = CombinedIndex::rebuild(&vec![scan(meta("a", "one")), scan(meta("c", "three"))]);
    idx.update_skill("c", Some(&scan(meta("c", "changed")))).unwrap();
    assert_eq!(names(&idx.skill_index), vec!["a", "c"]);
    assert_eq!(idx.skill_index.skills[0].description, "one");
    assert_eq!(idx.skill_index.skills[1].description, "changed");
    assert_eq!(idx.content_index.get("a").unwrap().content, "# a\n\none");
}

#[test]
fn sub_skill_errors() {
    let idx = CombinedIndex::rebuild(&vec![scan(meta("plain", "p"))]);
    let read = || DocumentRead::Read("x".into());
    assert!(matches!(idx.sub_skill_content("nope", "react", &PathResolution::Inside, read()), Err(IndexError::NotFound(_))));
    assert!(matches!(idx.sub_skill_content("plain", "react", &PathResolution::Inside, read()), Err(IndexError::NotFound(_))));
    let mut ok = meta("forms", "d");
    ok.sub_skills = Some(vec![SubSkillMeta { name: "react".into(), file: "react/SKILL.md".into(), triggers: vec![] }]);
    let idx = CombinedIndex::rebuild(&vec![scan(ok)]);
    assert!(matches!(idx.sub_skill_content("forms", "react", &PathResolution::Outside, read()), Err(IndexError::ValidationError(_))));
    assert!(matches!(idx.sub_skill_content("forms", "react", &PathResolution::Inside, DocumentRead::Missing), Err(IndexError::NotFound(_))));
    assert!(idx.sub_skill_content("forms", "react", &PathResolution::Inside, read()).is_ok());
}
