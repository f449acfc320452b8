//! Requests and responses of the service layers, and the checks on request
//! fields made before anything touches the disk.

use vstd::prelude::*;
use vstd::string::StringExecFns;
use crate::content::{BatchRequest, BatchResponseItem, ErrorResponse};
use crate::index::SkillIndex;
use crate::meta::{SkillMeta, SkillView, copy_strings, strs};
use crate::search::subs_of;
use crate::store::sub_names;
use crate::text::{chars_of, contains_seq};

verus! {

/// Longest accepted skill name in a request.
pub const MAX_SKILL_NAME_LENGTH: usize = 100;

/// Longest accepted description.
pub const MAX_DESCRIPTION_LENGTH: usize = 1000;

/// Longest accepted primary document.
pub const MAX_CONTENT_LENGTH: usize = 1000000;

/// Most tags on one skill.
pub const MAX_TAGS_COUNT: usize = 20;

/// Longest accepted tag.
pub const MAX_TAG_LENGTH: usize = 50;

/// Longest accepted search query.
pub const MAX_SEARCH_QUERY_LENGTH: usize = 1000;

/// Largest result limit.
pub const MAX_SEARCH_LIMIT: usize = 100;

/// Result limit when none is given.
pub const DEFAULT_LIMIT: usize = 10;

/// Length in UTF-8 bytes.
pub open spec fn byte_len(s: Seq<char>) -> nat {
    vstd::utf8::encode_utf8(s).len()
}

/// The length of a string in UTF-8 bytes.
pub fn bytes_of(s: &str) -> (r: usize)
    ensures
        r == byte_len(s@),
{
    broadcast use vstd::slice::axiom_spec_len;

    s.as_bytes().len()
}

/// A character that may not stand in a skill name.
pub open spec fn is_forbidden(c: char) -> bool {
    c == '/' || c == '\\' || c == '\0' || c == ':' || c == '*' || c == '?' || c == '"' || c == '<'
        || c == '>' || c == '|'
}

/// A skill name that is safe to use as a directory name.
pub open spec fn safe_skill_name(n: Seq<char>) -> bool {
    &&& n.len() > 0
    &&& byte_len(n) <= MAX_SKILL_NAME_LENGTH
    &&& !contains_seq(n, ".."@)
    &&& forall|i: int| 0 <= i < n.len() ==> !is_forbidden(n[i])
    &&& n[0] != '.'
}

fn err(msg: &str) -> (r: ErrorResponse) {
    ErrorResponse::new(String::from_str(msg))
}

/// Rejects a skill name that is empty, too long, holds `..` or a forbidden
/// character, or starts with `.`.
pub fn validate_skill_name(name: &str) -> (r: Result<(), ErrorResponse>)
    ensures
        r is Ok <==> safe_skill_name(name@),
{
    let n = chars_of(name);
    if n.len() == 0 {
        return Err(err("Skill name cannot be empty"));
    }
    if bytes_of(name) > MAX_SKILL_NAME_LENGTH {
        return Err(err("Skill name too long (max 100 characters)"));
    }
    let dots = chars_of("..");
    proof {
        reveal_strlit("..");
    }
    if crate::text::contains(&n, &dots) {
        return Err(err("Skill name cannot contain '..'"));
    }
    let mut i: usize = 0;
    while i < n.len()
        invariant
            i <= n@.len(),
            n@ == name@,
            forall|j: int| 0 <= j < i ==> !is_forbidden(n@[j]),
        decreases n@.len() - i,
    {
        let c = n[i];
        if c == '/' || c == '\\' || c == '\0' || c == ':' || c == '*' || c == '?' || c == '"' || c
            == '<' || c == '>' || c == '|' {
            proof {
                assert(is_forbidden(n@[i as int]));
            }
            return Err(err("Skill name contains invalid characters"));
        }
        i = i + 1;
    }
    if n[0] == '.' {
        return Err(err("Skill name cannot start with '.'"));
    }
    Ok(())
}

/// Tags that are few enough, each non-empty and short enough.
pub open spec fn tags_ok(tags: Seq<Seq<char>>) -> bool {
    tags.len() <= MAX_TAGS_COUNT && forall|i: int|
        0 <= i < tags.len() ==> 0 < (#[trigger] tags[i]).len() && byte_len(tags[i]) <= MAX_TAG_LENGTH
}

fn check_tags(tags: &Vec<String>) -> (r: Result<(), ErrorResponse>)
    ensures
        r is Ok <==> tags_ok(strs(tags@)),
{
    if tags.len() > MAX_TAGS_COUNT {
        return Err(err("Too many tags (max 20)"));
    }
    let mut i: usize = 0;
    while i < tags.len()
        invariant
            i <= tags@.len(),
            tags@.len() <= MAX_TAGS_COUNT,
            forall|j: int| 0 <= j < i ==> 0 < (#[trigger] strs(tags@)[j]).len() && byte_len(strs(tags@)[j]) <= MAX_TAG_LENGTH,
        decreases tags@.len() - i,
    {
        let n = bytes_of(tags[i].as_str());
        proof {
            assert(strs(tags@)[i as int] == tags@[i as int]@);
        }
        if n > MAX_TAG_LENGTH {
            return Err(
                ErrorResponse::new(
                    String::from_str("Tag '").concat(tags[i].as_str()).concat(
                        "' too long (max 50 characters)",
                    ),
                ),
            );
        }
        if tags[i].as_str().is_empty() {
            return Err(err("Tags cannot be empty"));
        }
        i = i + 1;
    }
    Ok(())
}

/// A request to create a skill.
#[derive(Debug)]
pub struct CreateSkillRequest {
    pub name: String,
    pub description: String,
    pub content: String,
    pub tags: Vec<String>,
}

impl CreateSkillRequest {
    /// Rejects a description, document or tag list beyond the limits.
    pub fn validate(&self) -> (r: Result<(), ErrorResponse>)
        ensures
            r is Ok <==> (byte_len(self.description@) <= MAX_DESCRIPTION_LENGTH && byte_len(
                self.content@,
            ) <= MAX_CONTENT_LENGTH && tags_ok(strs(self.tags@))),
    {
        if bytes_of(self.description.as_str()) > MAX_DESCRIPTION_LENGTH {
            return Err(err("Description too long (max 1000 characters)"));
        }
        if bytes_of(self.content.as_str()) > MAX_CONTENT_LENGTH {
            return Err(err("Content too long (max 1000000 bytes)"));
        }
        check_tags(&self.tags)
    }
}

/// A request to change a skill; absent fields stay as they are.
#[derive(Debug)]
pub struct UpdateSkillRequest {
    pub description: Option<String>,
    pub content: Option<String>,
    pub tags: Option<Vec<String>>,
}

impl UpdateSkillRequest {
    /// Rejects a given description, document or tag list beyond the limits.
    pub fn validate(&self) -> (r: Result<(), ErrorResponse>)
        ensures
            r is Ok <==> ((self.description matches Some(d) ==> byte_len(d@) <= MAX_DESCRIPTION_LENGTH)
                && (self.content matches Some(c) ==> byte_len(c@) <= MAX_CONTENT_LENGTH) && (
            self.tags matches Some(t) ==> tags_ok(strs(t@)))),
    {
        match &self.description {
            Some(d) => {
                if bytes_of(d.as_str()) > MAX_DESCRIPTION_LENGTH {
                    return Err(err("Description too long (max 1000 characters)"));
                }
            },
            None => {},
        }
        match &self.content {
            Some(c) => {
                if bytes_of(c.as_str()) > MAX_CONTENT_LENGTH {
                    return Err(err("Content too long (max 1000000 bytes)"));
                }
            },
            None => {},
        }
        match &self.tags {
            Some(t) => check_tags(t),
            None => Ok(()),
        }
    }
}

/// A search request of the request layer.
#[derive(Debug)]
pub struct SearchQuery {
    pub q: String,
    pub limit: usize,
}

/// `limit` brought into `1..=100`.
pub open spec fn clamped(limit: usize) -> usize {
    if limit < 1 {
        1
    } else if limit > MAX_SEARCH_LIMIT {
        MAX_SEARCH_LIMIT
    } else {
        limit
    }
}

pub fn default_limit() -> (r: usize)
    ensures
        r == DEFAULT_LIMIT,
{
    DEFAULT_LIMIT
}

impl SearchQuery {
    /// Rejects an empty or too long query; otherwise the limit to use.
    pub fn checked_limit(&self) -> (r: Result<usize, ErrorResponse>)
        ensures
            r is Ok <==> (0 < self.q@.len() && byte_len(self.q@) <= MAX_SEARCH_QUERY_LENGTH),
            r matches Ok(l) ==> l == clamped(self.limit),
    {
        let n = chars_of(self.q.as_str()).len();
        if n == 0 {
            return Err(err("Search query cannot be empty"));
        }
        if bytes_of(self.q.as_str()) > MAX_SEARCH_QUERY_LENGTH {
            return Err(err("Search query too long (max 1000 characters)"));
        }
        if self.limit < 1 {
            Ok(1)
        } else if self.limit > MAX_SEARCH_LIMIT {
            Ok(MAX_SEARCH_LIMIT)
        } else {
            Ok(self.limit)
        }
    }
}

/// The files of a skill: the primary document and one per sub-skill, as
/// far as `usize` counts.
pub open spec fn file_count(m: SkillView) -> nat {
    if subs_of(m).len() < usize::MAX {
        subs_of(m).len() + 1
    } else {
        usize::MAX as nat
    }
}

/// One skill of the listing.
#[derive(Debug)]
pub struct SkillListItem {
    pub name: String,
    pub description: String,
    pub tags: Vec<String>,
    pub sub_skills: Vec<String>,
    pub file_count: usize,
}

/// Summary of one skill.
#[derive(Debug)]
pub struct SkillSummary {
    pub name: String,
    pub description: String,
    pub tags: Vec<String>,
    pub sub_skills: Vec<String>,
}

/// The listing of all skills.
#[derive(Debug)]
pub struct ListSkillsResponse {
    pub skills: Vec<SkillSummary>,
    pub total: usize,
}

/// The listing entry of a manifest.
pub fn list_item(meta: &SkillMeta) -> (r: SkillListItem)
    ensures
        r.name@ == meta.name@,
        r.description@ == meta.description@,
        r.tags@ == meta.tags@,
        r.sub_skills@.len() == subs_of(meta@).len(),
        r.file_count == file_count(meta@),
{
    let names = meta.sub_skill_names();
    let n = names.len();
    proof {
        assert(subs_of(meta@) == crate::meta::sub_views(meta.subs()));
    }
    SkillListItem {
        name: meta.name.clone(),
        description: meta.description.clone(),
        tags: copy_strings(&meta.tags),
        sub_skills: names,
        file_count: if n < usize::MAX {
            n + 1
        } else {
            n
        },
    }
}

/// The summaries of all skills, in index order.
pub fn list_skills(index: &SkillIndex) -> (r: ListSkillsResponse)
    ensures
        r.total == index.skills@.len(),
        r.skills@.len() == index.skills@.len(),
        forall|i: int|
            0 <= i < r.skills@.len() ==> (#[trigger] r.skills@[i]).name@ == index.skills@[i].name@
                && r.skills@[i].description@ == index.skills@[i].description@ && r.skills@[i].tags@
                == index.skills@[i].tags@ && strs(r.skills@[i].sub_skills@) == sub_names(
                index.skills@[i]@,
            ),
{
    let mut out: Vec<SkillSummary> = Vec::new();
    let mut i: usize = 0;
    while i < index.skills.len()
        invariant
            i <= index.skills@.len(),
            out@.len() == i,
            forall|j: int|
                0 <= j < i ==> (#[trigger] out@[j]).name@ == index.skills@[j].name@
                    && out@[j].description@ == index.skills@[j].description@ && out@[j].tags@
                    == index.skills@[j].tags@ && strs(out@[j].sub_skills@) == sub_names(
                    index.skills@[j]@,
                ),
        decreases index.skills@.len() - i,
    {
        let s = &index.skills[i];
        proof {
            assert(subs_of(s@) == crate::meta::sub_views(s.subs()));
        }
        out.push(
            SkillSummary {
                name: s.name.clone(),
                description: s.description.clone(),
                tags: copy_strings(&s.tags),
                sub_skills: s.sub_skill_names(),
            },
        );
        i = i + 1;
    }
    let total = out.len();
    ListSkillsResponse { skills: out, total }
}

/// One sub-skill in a skill's details.
#[derive(Debug)]
pub struct SubSkillInfo {
    pub name: String,
    pub file: String,
    pub triggers: Vec<String>,
}

/// A skill's manifest and primary document together.
#[derive(Debug)]
pub struct SkillDetails {
    pub name: String,
    pub description: String,
    pub content: String,
    pub tags: Vec<String>,
    pub sub_skills: Vec<SubSkillInfo>,
    pub has_references: bool,
}

/// The details of a skill from its manifest and its primary document.
pub fn skill_details(meta: &SkillMeta, content: String, has_references: bool) -> (r: SkillDetails)
    ensures
        r.name@ == meta.name@,
        r.description@ == meta.description@,
        r.content == content,
        r.tags@ == meta.tags@,
        r.sub_skills@.len() == subs_of(meta@).len(),
        forall|i: int|
            0 <= i < r.sub_skills@.len() ==> (#[trigger] r.sub_skills@[i]).name@ == subs_of(
                meta@,
            )[i].name && r.sub_skills@[i].file@ == subs_of(meta@)[i].file,
        r.has_references == has_references,
{
    let mut subs: Vec<SubSkillInfo> = Vec::new();
    proof {
        assert(subs_of(meta@) == crate::meta::sub_views(meta.subs()));
    }
    match &meta.sub_skills {
        Some(v) => {
            let mut i: usize = 0;
            while i < v.len()
                invariant
                    i <= v@.len(),
                    meta.sub_skills == Some(*v),
                    subs_of(meta@) == crate::meta::sub_views(v@),
                    subs@.len() == i,
                    forall|j: int|
                        0 <= j < i ==> (#[trigger] subs@[j]).name@ == subs_of(meta@)[j].name
                            && subs@[j].file@ == subs_of(meta@)[j].file,
                decreases v@.len() - i,
            {
                proof {
                    assert(crate::meta::sub_views(v@)[i as int] == v@[i as int]@);
                }
                subs.push(
                    SubSkillInfo {
                        name: v[i].name.clone(),
                        file: v[i].file.clone(),
                        triggers: copy_strings(&v[i].triggers),
                    },
                );
                i = i + 1;
            }
        },
        None => {},
    }
    SkillDetails {
        name: meta.name.clone(),
        description: meta.description.clone(),
        content,
        tags: copy_strings(&meta.tags),
        sub_skills: subs,
        has_references,
    }
}

/// The answer to a reload of the request layer.
#[derive(Debug)]
pub struct ReloadResponse {
    pub success: bool,
    pub skill_count: usize,
}

/// The answer to a reload of the assistant protocol layer.
#[derive(Debug)]
pub struct ReloadIndexResponse {
    pub success: bool,
    pub skill_count: usize,
    pub content_entries: usize,
    pub error: Option<String>,
}

/// Request for one skill's primary document.
#[derive(Debug)]
pub struct GetSkillRequest {
    pub name: String,
}

/// Request for one sub-skill's document.
#[derive(Debug)]
pub struct GetSubSkillRequest {
    pub domain: String,
    pub sub_skill: String,
}

/// Request for several documents at once.
#[derive(Debug)]
pub struct GetSkillsBatchRequest {
    pub requests: Vec<BatchRequest>,
}

/// The answers of a batch, one per request, in order.
#[derive(Debug)]
pub struct GetSkillsBatchResponse {
    pub results: Vec<BatchResponseItem>,
}

/// A metadata search request.
#[derive(Debug)]
pub struct SearchSkillsRequest {
    pub query: String,
    pub limit: Option<usize>,
}

/// A content search request.
#[derive(Debug)]
pub struct SearchContentRequest {
    pub query: String,
    pub limit: Option<usize>,
}

/// The limit of a protocol search: the one asked for, or the default.
pub fn request_limit(limit: Option<usize>) -> (r: Option<usize>)
    ensures
        r == Some(
            match limit {
                Some(l) => l,
                None => DEFAULT_LIMIT,
            },
        ),
{
    match limit {
        Some(l) => Some(l),
        None => Some(DEFAULT_LIMIT),
    }
}

/// A failure of the file watcher.
#[derive(Debug)]
pub enum WatchError {
    /// The watcher could not be set up.
    Setup(String),
    /// A path could not be watched.
    Watch(String),
}

/// A failure of the request-serving layer.
#[derive(Debug)]
pub enum ApiError {
    Bind(String),
    Serve(String),
}

/// A failure of the assistant protocol layer.
#[derive(Debug)]
pub enum McpError {
    Init(String),
    Runtime(String),
}

/// A schema problem of one field.
#[derive(Debug)]
pub struct ValidationError {
    pub field: String,
    pub message: String,
}

impl ValidationError {
    /// `field: message`.
    pub fn to_text(&self) -> (r: String)
        ensures
            r@ == self.field@ + ": "@ + self.message@,
    {
        self.field.clone().concat(": ").concat(self.message.as_str())
    }
}

/// Where the history database lives.
#[derive(Debug)]
pub struct DbConfig {
    pub db_path: String,
}

/// Default path of the history database.
pub const DEFAULT_DB_PATH: &'static str = "creation_station.db";

impl Default for DbConfig {
    fn default() -> (r: Self)
        ensures
            r.db_path@ == DEFAULT_DB_PATH@,
    {
        DbConfig { db_path: String::from_str(DEFAULT_DB_PATH) }
    }
}

/// One stored file of a skill.
#[derive(Debug)]
pub struct SkillFile {
    pub path: String,
    pub content: Vec<u8>,
    pub is_binary: bool,
    pub encoding: String,
}

} // verus!
