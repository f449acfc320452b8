//! What content retrieval hands back to callers.

use vstd::prelude::*;
use crate::meta::strs;

verus! {

/// A skill's primary document, with its sub-skill names.
#[derive(Debug)]
pub struct SkillContent {
    pub name: String,
    pub content: String,
    pub sub_skills: Vec<String>,
    pub has_references: bool,
}

impl SkillContent {
    pub fn new(name: String, content: String) -> (r: Self)
        ensures
            r.name == name,
            r.content == content,
            r.sub_skills@.len() == 0,
            !r.has_references,
    {
        SkillContent { name, content, sub_skills: Vec::new(), has_references: false }
    }

    pub fn with_sub_skills(self, sub_skills: Vec<String>) -> (r: Self)
        ensures
            r == (SkillContent { sub_skills, ..self }),
    {
        let mut r = self;
        r.sub_skills = sub_skills;
        r
    }

    pub fn with_references(self, has_references: bool) -> (r: Self)
        ensures
            r == (SkillContent { has_references, ..self }),
    {
        let mut r = self;
        r.has_references = has_references;
        r
    }
}

/// A sub-skill document.
#[derive(Debug)]
pub struct SubSkillContent {
    pub domain: String,
    pub sub_skill: String,
    pub content: String,
}

impl SubSkillContent {
    pub fn new(domain: String, sub_skill: String, content: String) -> (r: Self)
        ensures
            r.domain == domain,
            r.sub_skill == sub_skill,
            r.content == content,
    {
        SubSkillContent { domain, sub_skill, content }
    }
}

/// One item of a batch fetch: a skill's primary document, or one sub-skill.
#[derive(Debug)]
pub struct BatchRequest {
    pub domain: String,
    pub sub_skill: Option<String>,
}

impl BatchRequest {
    /// A request for the primary document.
    pub fn skill(domain: String) -> (r: Self)
        ensures
            r.domain == domain,
            r.sub_skill is None,
    {
        BatchRequest { domain, sub_skill: None }
    }

    /// A request for one sub-skill.
    pub fn sub_skill(domain: String, sub_skill: String) -> (r: Self)
        ensures
            r.domain == domain,
            r.sub_skill == Some(sub_skill),
    {
        BatchRequest { domain, sub_skill: Some(sub_skill) }
    }
}

/// The answer to one batch item.
#[derive(Debug)]
pub enum BatchResponseItem {
    Skill(SkillContent),
    SubSkill(SubSkillContent),
    Error { domain: String, error: String },
}

impl BatchResponseItem {
    pub fn error(domain: String, error: String) -> (r: Self)
        ensures
            r == (BatchResponseItem::Error { domain, error }),
    {
        BatchResponseItem::Error { domain, error }
    }

    pub fn is_error(&self) -> (r: bool)
        ensures
            r == (self is Error),
    {
        match self {
            BatchResponseItem::Error { .. } => true,
            _ => false,
        }
    }
}

/// How a response is rendered.
#[derive(Debug, Clone, Copy, PartialEq, Eq, Structural)]
pub enum ResponseFormat {
    Markdown,
    Json,
}

impl Default for ResponseFormat {
    fn default() -> (r: Self)
        ensures
            r == ResponseFormat::Markdown,
    {
        ResponseFormat::Markdown
    }
}

/// Templates for new skills.
#[derive(Debug, Clone, Copy, PartialEq, Eq, Structural)]
pub enum SkillTemplate {
    Minimal,
    Standard,
    WithSubSkills,
}

impl Default for SkillTemplate {
    fn default() -> (r: Self)
        ensures
            r == SkillTemplate::Standard,
    {
        SkillTemplate::Standard
    }
}

/// An error message for a caller.
#[derive(Debug)]
pub struct ErrorResponse {
    pub error: String,
}

impl ErrorResponse {
    pub fn new(error: String) -> (r: Self)
        ensures
            r.error == error,
    {
        ErrorResponse { error }
    }
}

impl From<String> for ErrorResponse {
    fn from(error: String) -> (r: Self) {
        ErrorResponse { error }
    }
}

impl vstd::std_specs::convert::FromSpecImpl<String> for ErrorResponse {
    open spec fn obeys_from_spec() -> bool {
        true
    }

    open spec fn from_spec(error: String) -> ErrorResponse {
        ErrorResponse { error }
    }
}

} // verus!
