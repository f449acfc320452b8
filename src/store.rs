//! The index store: the metadata and content collections built together from
//! a scan of the skills directory, and updated one skill at a time.

use vstd::prelude::*;
use vstd::string::StringExecFns;
use crate::content::{SkillContent, SubSkillContent};
use crate::index::{
    ContentEntryView, ContentIndex, ContentIndexEntry, SkillIndex, entry_for, meta_views, opt_str,
    upsert, without_domain,
};
use crate::meta::{SkillMeta, SkillView, strs, sub_views};
use crate::order::{
    is_ordered, is_strict, lemma_ins_pos, lemma_lex_asym, lemma_lex_trans, lemma_sorted_by_elements,
    lemma_sorted_by_ordered, lex_less, lex_lt, sorted_by,
};
use crate::search::subs_of;
use crate::text::{chars_of, contains_seq};
use crate::validation::{meta_messages, validate_meta};

verus! {

/// The kinds of failure.
#[derive(Debug, Clone, Copy, PartialEq, Eq, Structural)]
pub enum ErrorKind {
    NotFound,
    Read,
    Parse,
    Validation,
}

/// A failure, with a message.
#[derive(Debug)]
pub enum IndexError {
    /// A skill, sub-skill or expected file is absent.
    NotFound(String),
    /// An existing path could not be read.
    ReadError(String),
    /// A manifest is malformed.
    ParseError(String),
    /// A manifest breaks the schema, or a path escapes its skill directory.
    ValidationError(String),
}

impl IndexError {
    pub open spec fn kind(self) -> ErrorKind {
        match self {
            IndexError::NotFound(_) => ErrorKind::NotFound,
            IndexError::ReadError(_) => ErrorKind::Read,
            IndexError::ParseError(_) => ErrorKind::Parse,
            IndexError::ValidationError(_) => ErrorKind::Validation,
        }
    }

    pub open spec fn detail(self) -> Seq<char> {
        match self {
            IndexError::NotFound(m) => m@,
            IndexError::ReadError(m) => m@,
            IndexError::ParseError(m) => m@,
            IndexError::ValidationError(m) => m@,
        }
    }

    pub open spec fn text(self) -> Seq<char> {
        match self {
            IndexError::NotFound(m) => "Not found: "@ + m@,
            IndexError::ReadError(m) => "Read error: "@ + m@,
            IndexError::ParseError(m) => "Parse error: "@ + m@,
            IndexError::ValidationError(m) => "Validation error: "@ + m@,
        }
    }

    /// The message with its kind in front.
    pub fn message(&self) -> (r: String)
        ensures
            r@ == self.text(),
    {
        match self {
            IndexError::NotFound(m) => String::from_str("Not found: ").concat(m.as_str()),
            IndexError::ReadError(m) => String::from_str("Read error: ").concat(m.as_str()),
            IndexError::ParseError(m) => String::from_str("Parse error: ").concat(m.as_str()),
            IndexError::ValidationError(m) => String::from_str("Validation error: ").concat(
                m.as_str(),
            ),
        }
    }
}

/// A path that, read as text, leaves the directory it is relative to: it
/// holds `..`, starts at a root, or starts with a drive letter.
pub open spec fn lexically_escapes(f: Seq<char>) -> bool {
    contains_seq(f, ".."@) || (f.len() > 0 && (f[0] == '/' || f[0] == '\\')) || (f.len() >= 2
        && f[1] == ':')
}

/// Checks the text of a sub-skill path.
pub fn check_sub_skill_path(file: &str) -> (r: Result<(), IndexError>)
    ensures
        r is Ok <==> !lexically_escapes(file@),
        r matches Err(e) ==> e.kind() == ErrorKind::Validation,
{
    let f = chars_of(file);
    let dots = chars_of("..");
    proof {
        reveal_strlit("..");
    }
    if crate::text::contains(&f, &dots) {
        return Err(
            IndexError::ValidationError(
                String::from_str("Sub-skill file path contains '..': ").concat(file),
            ),
        );
    }
    if f.len() > 0 && (f[0] == '/' || f[0] == '\\') {
        return Err(
            IndexError::ValidationError(
                String::from_str("Sub-skill file path cannot be absolute: ").concat(file),
            ),
        );
    }
    if f.len() >= 2 && f[1] == ':' {
        return Err(
            IndexError::ValidationError(
                String::from_str("Sub-skill file path cannot be absolute: ").concat(file),
            ),
        );
    }
    Ok(())
}

/// Where a sub-skill path led on disk, once resolved with links followed.
#[derive(Debug)]
pub enum PathResolution {
    /// Nothing is there; the path as displayed.
    Missing(String),
    /// Resolving failed; why.
    Failed(String),
    /// Inside the skill directory.
    Inside,
    /// Outside the skill directory.
    Outside,
}

/// Accepts a sub-skill path only if its text stays inside the skill directory
/// and it resolved to an existing file inside it.
pub fn validate_sub_skill_path(file: &str, resolution: &PathResolution) -> (r: Result<
    (),
    IndexError,
>)
    ensures
        r is Ok <==> !lexically_escapes(file@) && resolution is Inside,
        r matches Err(e) ==> (e.kind() == ErrorKind::Validation <==> (lexically_escapes(file@)
            || resolution is Outside)),
        r matches Err(e) ==> (e.kind() == ErrorKind::NotFound <==> (!lexically_escapes(file@)
            && resolution is Missing)),
        r matches Err(e) ==> (e.kind() == ErrorKind::Read <==> (!lexically_escapes(file@)
            && resolution is Failed)),
{
    check_sub_skill_path(file)?;
    match resolution {
        PathResolution::Missing(shown) => Err(
            IndexError::NotFound(String::from_str("Sub-skill file not found: ").concat(shown.as_str())),
        ),
        PathResolution::Failed(why) => Err(IndexError::ReadError(why.clone())),
        PathResolution::Inside => Ok(()),
        PathResolution::Outside => Err(
            IndexError::ValidationError(
                String::from_str("Sub-skill file path escapes skill directory: ").concat(file),
            ),
        ),
    }
}

/// One document of a skill as read from disk: the primary document, a
/// sub-skill document, or a reference document.
#[derive(Debug)]
pub struct SkillDocument {
    pub sub_skill: Option<String>,
    pub file: String,
    pub content: String,
}

pub struct DocView {
    pub sub_skill: Option<Seq<char>>,
    pub file: Seq<char>,
    pub content: Seq<char>,
}

impl View for SkillDocument {
    type V = DocView;

    open spec fn view(&self) -> DocView {
        DocView { sub_skill: opt_str(self.sub_skill), file: self.file@, content: self.content@ }
    }
}

pub open spec fn doc_views(v: Seq<SkillDocument>) -> Seq<DocView> {
    v.map_values(|d: SkillDocument| d@)
}

impl Clone for SkillDocument {
    fn clone(&self) -> (r: Self)
        ensures
            r@ == self@,
    {
        SkillDocument {
            sub_skill: crate::index::copy_opt(&self.sub_skill),
            file: self.file.clone(),
            content: self.content.clone(),
        }
    }
}

fn copy_documents(v: &Vec<SkillDocument>) -> (r: Vec<SkillDocument>)
    ensures
        doc_views(r@) == doc_views(v@),
{
    let mut out: Vec<SkillDocument> = Vec::new();
    let mut i: usize = 0;
    while i < v.len()
        invariant
            i <= v@.len(),
            out@.len() == i,
            doc_views(out@) == doc_views(v@.subrange(0, i as int)),
        decreases v@.len() - i,
    {
        let ghost before = out@;
        let c = v[i].clone();
        out.push(c);
        proof {
            let lhs = doc_views(out@);
            let rhs = doc_views(v@.subrange(0, i + 1));
            assert forall|j: int| 0 <= j < i + 1 implies lhs[j] == rhs[j] by {
                if j < i {
                    assert(out@[j] == before[j]);
                    assert(doc_views(before)[j] == before[j]@);
                    assert(doc_views(v@.subrange(0, i as int))[j] == v@[j]@);
                }
            }
            assert(lhs =~= rhs);
        }
        i = i + 1;
    }
    proof {
        assert(v@.subrange(0, i as int) =~= v@);
    }
    out
}

/// The extension of a reference document: `md` or `markdown`.
pub open spec fn is_markdown_ext(ext: Seq<char>) -> bool {
    ext == "md"@ || ext == "markdown"@
}

/// Whether a file with this extension is indexed as a reference document.
pub fn is_markdown_extension(ext: &str) -> (r: bool)
    ensures
        r == is_markdown_ext(ext@),
{
    let e = ext.to_owned();
    e == String::from_str("md") || e == String::from_str("markdown")
}

/// What reading a skill's manifest gave.
#[derive(Debug)]
pub enum ManifestState {
    /// No manifest file.
    Missing,
    /// The file could not be read; why.
    Unreadable(String),
    /// The file is not a well-formed manifest; why.
    Malformed(String),
    /// The parsed manifest.
    Loaded(SkillMeta),
}

/// One directory of the skills directory, as read from disk.
#[derive(Debug)]
pub struct SkillDirScan {
    /// The directory's name.
    pub dir_name: String,
    pub manifest: ManifestState,
    /// Sub-skill paths of the manifest that, resolved with links followed,
    /// lie outside the directory.
    pub escaping_files: Vec<String>,
    /// The documents found, in the order they are indexed.
    pub documents: Vec<SkillDocument>,
}

/// A name that marks a directory to be skipped.
pub open spec fn is_hidden(name: Seq<char>) -> bool {
    name.len() > 0 && (name[0] == '.' || name[0] == '_')
}

pub fn hidden(name: &str) -> (r: bool)
    ensures
        r == is_hidden(name@),
{
    let c = chars_of(name);
    c.len() > 0 && (c[0] == '.' || c[0] == '_')
}

/// A sub-skill path of the manifest that escapes the directory.
pub open spec fn escapes(scan: SkillDirScan, file: Seq<char>) -> bool {
    lexically_escapes(file) || strs(scan.escaping_files@).contains(file)
}

/// The manifest names a sub-skill file that escapes the directory.
pub open spec fn has_escape(scan: SkillDirScan, m: SkillView) -> bool {
    exists|i: int|
        #![trigger subs_of(m)[i]]
        0 <= i < subs_of(m).len() && escapes(scan, subs_of(m)[i].file)
}

/// `i` is the first sub-skill entry whose path escapes.
pub open spec fn first_escape(scan: SkillDirScan, m: SkillView, i: int) -> bool {
    0 <= i < subs_of(m).len() && escapes(scan, subs_of(m)[i].file) && forall|j: int|
        0 <= j < i ==> !escapes(scan, subs_of(m)[j].file)
}

/// The message of the failure that loading the scanned skill meets.
pub open spec fn failure_text(scan: SkillDirScan) -> Seq<char> {
    match scan.manifest {
        ManifestState::Missing => "Not found: Missing _meta.json"@,
        ManifestState::Unreadable(why) => "Read error: "@ + why@,
        ManifestState::Malformed(why) => "Parse error: "@ + why@,
        ManifestState::Loaded(m) => if m@.name != scan.dir_name@ {
            "Validation error: Manifest name '"@ + m@.name + "' does not match directory '"@
                + scan.dir_name@ + "'"@
        } else {
            "Validation error: Sub-skill file path escapes skill directory: "@ + subs_of(m@)[choose|
                i: int,
            | first_escape(scan, m@, i)].file
        },
    }
}

/// The kind of failure that loading the scanned skill meets, if any.
pub open spec fn load_failure(scan: SkillDirScan) -> Option<ErrorKind> {
    match scan.manifest {
        ManifestState::Missing => Some(ErrorKind::NotFound),
        ManifestState::Unreadable(_) => Some(ErrorKind::Read),
        ManifestState::Malformed(_) => Some(ErrorKind::Parse),
        ManifestState::Loaded(m) => if m@.name != scan.dir_name@ || has_escape(scan, m@) {
            Some(ErrorKind::Validation)
        } else {
            None
        },
    }
}

/// A skill that loaded: its manifest and documents.
pub struct LoadedView {
    pub meta: SkillView,
    pub docs: Seq<DocView>,
}

pub open spec fn loaded_of(scan: SkillDirScan) -> LoadedView {
    LoadedView {
        meta: match scan.manifest {
            ManifestState::Loaded(m) => m@,
            _ => arbitrary(),
        },
        docs: doc_views(scan.documents@),
    }
}

/// The skills that load, in scan order, hidden directories skipped.
pub open spec fn loaded(scans: Seq<SkillDirScan>) -> Seq<LoadedView>
    decreases scans.len(),
{
    if scans.len() == 0 {
        seq![]
    } else {
        let prev = loaded(scans.drop_last());
        let s = scans.last();
        if !is_hidden(s.dir_name@) && load_failure(s) is None {
            prev.push(loaded_of(s))
        } else {
            prev
        }
    }
}

/// `a` sorts before `b` by skill name.
pub open spec fn named_before(a: LoadedView, b: LoadedView) -> bool {
    lex_lt(a.meta.name, b.meta.name)
}

/// `a` sorts before `b` by name.
pub open spec fn meta_before(a: SkillView, b: SkillView) -> bool {
    lex_lt(a.name, b.name)
}

/// The content entries of a skill's documents, added in order.
pub open spec fn add_docs(
    c: Seq<ContentEntryView>,
    domain: Seq<char>,
    docs: Seq<DocView>,
) -> Seq<ContentEntryView>
    decreases docs.len(),
{
    if docs.len() == 0 {
        c
    } else {
        let d = docs.last();
        upsert(add_docs(c, domain, docs.drop_last()), entry_for(domain, d.sub_skill, d.file, d.content))
    }
}

/// The entries of a skill's documents, in order.
pub open spec fn doc_entries(domain: Seq<char>, docs: Seq<DocView>) -> Seq<ContentEntryView> {
    docs.map_values(|d: DocView| entry_for(domain, d.sub_skill, d.file, d.content))
}

/// `c` with the entries added in order, each replacing the one for the
/// same document.
pub open spec fn insert_all(c: Seq<ContentEntryView>, es: Seq<ContentEntryView>) -> Seq<
    ContentEntryView,
>
    decreases es.len(),
{
    if es.len() == 0 {
        c
    } else {
        upsert(insert_all(c, es.drop_last()), es.last())
    }
}

pub proof fn lemma_add_docs_as_entries(c: Seq<ContentEntryView>, domain: Seq<char>, docs: Seq<DocView>)
    ensures
        add_docs(c, domain, docs) == insert_all(c, doc_entries(domain, docs)),
    decreases docs.len(),
{
    if docs.len() > 0 {
        lemma_add_docs_as_entries(c, domain, docs.drop_last());
        assert(doc_entries(domain, docs).drop_last() =~= doc_entries(domain, docs.drop_last()));
    }
}

/// The content entries of the skills' documents, skill by skill.
pub open spec fn add_all(c: Seq<ContentEntryView>, ls: Seq<LoadedView>) -> Seq<ContentEntryView>
    decreases ls.len(),
{
    if ls.len() == 0 {
        c
    } else {
        add_docs(add_all(c, ls.drop_last()), ls.last().meta.name, ls.last().docs)
    }
}

/// The loaded skills ordered by name, equal names in scan order.
pub open spec fn built_order(scans: Seq<SkillDirScan>) -> Seq<LoadedView> {
    sorted_by(loaded(scans), |a: LoadedView, b: LoadedView| named_before(a, b))
}

/// The metadata collection a rebuild yields.
pub open spec fn built_skills(scans: Seq<SkillDirScan>) -> Seq<SkillView> {
    built_order(scans).map_values(|l: LoadedView| l.meta)
}

/// The content collection a rebuild yields.
pub open spec fn built_content(scans: Seq<SkillDirScan>) -> Seq<ContentEntryView> {
    add_all(seq![], built_order(scans))
}

/// Ordered by name.
pub open spec fn sorted_by_name(s: Seq<SkillView>) -> bool {
    forall|i: int, j: int| 0 <= i < j < s.len() ==> !lex_lt(s[j].name, s[i].name)
}

proof fn lemma_named_before_strict()
    ensures
        is_strict(|a: LoadedView, b: LoadedView| named_before(a, b)),
{
    let prec = |a: LoadedView, b: LoadedView| named_before(a, b);
    assert forall|a: LoadedView, b: LoadedView, c: LoadedView|
        #[trigger] prec(a, b) && #[trigger] prec(b, c) implies prec(a, c) by {
        lemma_lex_trans(a.meta.name, b.meta.name, c.meta.name);
    }
    assert forall|a: LoadedView, b: LoadedView| #[trigger] prec(a, b) implies !prec(b, a) by {
        lemma_lex_asym(a.meta.name, b.meta.name);
    }
}

proof fn lemma_meta_before_strict()
    ensures
        is_strict(|a: SkillView, b: SkillView| meta_before(a, b)),
{
    let prec = |a: SkillView, b: SkillView| meta_before(a, b);
    assert forall|a: SkillView, b: SkillView, c: SkillView|
        #[trigger] prec(a, b) && #[trigger] prec(b, c) implies prec(a, c) by {
        lemma_lex_trans(a.name, b.name, c.name);
    }
    assert forall|a: SkillView, b: SkillView| #[trigger] prec(a, b) implies !prec(b, a) by {
        lemma_lex_asym(a.name, b.name);
    }
}

/// A rebuild's metadata collection is ordered by name.
pub proof fn lemma_built_sorted(scans: Seq<SkillDirScan>)
    ensures
        sorted_by_name(built_skills(scans)),
{
    let prec = |a: LoadedView, b: LoadedView| named_before(a, b);
    lemma_named_before_strict();
    lemma_sorted_by_ordered(loaded(scans), prec);
    let o = built_order(scans);
    let s = built_skills(scans);
    assert forall|i: int, j: int| 0 <= i < j < s.len() implies !lex_lt(s[j].name, s[i].name) by {
        assert(s[i] == o[i].meta && s[j] == o[j].meta);
        assert(!prec(o[j], o[i]));
    }
}

/// A skill that loaded.
pub struct LoadedSkill {
    pub meta: SkillMeta,
    pub documents: Vec<SkillDocument>,
}

impl View for LoadedSkill {
    type V = LoadedView;

    open spec fn view(&self) -> LoadedView {
        LoadedView { meta: self.meta@, docs: doc_views(self.documents@) }
    }
}

pub open spec fn loaded_views(v: Seq<LoadedSkill>) -> Seq<LoadedView> {
    v.map_values(|l: LoadedSkill| l@)
}

fn names_escape(scan: &SkillDirScan, meta: &SkillMeta) -> (r: Option<usize>)
    ensures
        r is None <==> !has_escape(*scan, meta@),
        r matches Some(i) ==> first_escape(*scan, meta@, i as int),
{
    match &meta.sub_skills {
        None => None,
        Some(subs) => {
            let mut i: usize = 0;
            while i < subs.len()
                invariant
                    i <= subs@.len(),
                    meta.sub_skills == Some(*subs),
                    forall|j: int| 0 <= j < i ==> !escapes(*scan, subs@[j].file@),
                decreases subs@.len() - i,
            {
                let file = &subs[i].file;
                let lexical = check_sub_skill_path(file.as_str());
                let listed = crate::meta::holds_string(&scan.escaping_files, file);
                proof {
                    assert(sub_views(subs@)[i as int] == subs@[i as int]@);
                }
                if lexical.is_err() || listed {
                    proof {
                        assert(escapes(*scan, subs@[i as int].file@));
                        assert(meta@.sub_skills == Some(sub_views(subs@)));
                        assert(escapes(*scan, sub_views(subs@)[i as int].file));
                        assert(subs_of(meta@) == sub_views(subs@));
                        assert(0 <= i < subs_of(meta@).len());
                    }
                    return Some(i);
                }
                i = i + 1;
            }
            proof {
                assert(subs_of(meta@) == sub_views(subs@));
                assert forall|j: int| 0 <= j < subs_of(meta@).len() implies !escapes(
                    *scan,
                    subs_of(meta@)[j].file,
                ) by {
                    assert(sub_views(subs@)[j] == subs@[j]@);
                }
            }
            None
        },
    }
}

/// Loads one scanned skill: its manifest must be there, readable and well
/// formed, and no sub-skill path may escape the directory.
pub fn load_skill(scan: &SkillDirScan) -> (r: Result<LoadedSkill, IndexError>)
    ensures
        r is Ok <==> load_failure(*scan) is None,
        r matches Ok(l) ==> l@ == loaded_of(*scan),
        r matches Err(e) ==> load_failure(*scan) == Some(e.kind()) && e.text() == failure_text(
            *scan,
        ),
{
    match &scan.manifest {
        ManifestState::Missing => {
            let e = IndexError::NotFound(String::from_str("Missing _meta.json"));
            proof {
                reveal_strlit("Not found: ");
                reveal_strlit("Missing _meta.json");
                reveal_strlit("Not found: Missing _meta.json");
                assert(e.text() =~= "Not found: Missing _meta.json"@);
            }
            Err(e)
        },
        ManifestState::Unreadable(why) => Err(IndexError::ReadError(why.clone())),
        ManifestState::Malformed(why) => Err(IndexError::ParseError(why.clone())),
        ManifestState::Loaded(meta) => {
            if meta.name != scan.dir_name {
                let e = IndexError::ValidationError(
                    String::from_str("Manifest name '").concat(meta.name.as_str()).concat(
                        "' does not match directory '",
                    ).concat(scan.dir_name.as_str()).concat("'"),
                );
                proof {
                    reveal_strlit("Validation error: ");
                    reveal_strlit("Manifest name '");
                    reveal_strlit("Validation error: Manifest name '");
                    assert(e.text() =~= failure_text(*scan));
                }
                return Err(e);
            }
            match names_escape(scan, meta) {
                Some(i) => {
                    let subs = meta.sub_skills.as_ref().unwrap();
                    proof {
                        assert(sub_views(subs@)[i as int] == subs@[i as int]@);
                        assert(subs_of(meta@) == sub_views(subs@));
                        let k = choose|k: int| first_escape(*scan, meta@, k);
                        if k < i {
                        } else if i < k {
                        }
                        assert(k == i);
                        reveal_strlit("Validation error: ");
                        reveal_strlit("Sub-skill file path escapes skill directory: ");
                        reveal_strlit("Validation error: Sub-skill file path escapes skill directory: ");
                    }
                    Err(
                        IndexError::ValidationError(
                            String::from_str("Sub-skill file path escapes skill directory: ").concat(
                                subs[i].file.as_str(),
                            ),
                        ),
                    )
                },
                None => Ok(LoadedSkill { meta: meta.clone(), documents: copy_documents(&scan.documents) }),
            }
        },
    }
}

/// `dir: message` for each message.
pub open spec fn prefixed(dir: Seq<char>, msgs: Seq<Seq<char>>) -> Seq<Seq<char>> {
    msgs.map_values(|m: Seq<char>| dir + ": "@ + m)
}

/// The problems a scanned directory contributes to a rebuild.
pub open spec fn scan_messages(scan: SkillDirScan) -> Seq<Seq<char>> {
    if is_hidden(scan.dir_name@) {
        seq![]
    } else if scan.manifest is Missing {
        seq![scan.dir_name@ + ": Missing _meta.json"@]
    } else if load_failure(scan) is Some {
        seq![scan.dir_name@ + ": "@ + failure_text(scan)]
    } else {
        prefixed(scan.dir_name@, meta_messages(loaded_of(scan).meta))
    }
}

/// The problems of every scanned directory, in scan order.
pub open spec fn built_errors(scans: Seq<SkillDirScan>) -> Seq<Seq<char>>
    decreases scans.len(),
{
    if scans.len() == 0 {
        seq![]
    } else {
        built_errors(scans.drop_last()) + scan_messages(scans.last())
    }
}

/// Sorts loaded skills by name, equal names keeping their order.
fn sort_loaded(v: Vec<LoadedSkill>) -> (r: Vec<LoadedSkill>)
    ensures
        loaded_views(r@) == sorted_by(loaded_views(v@), |a: LoadedView, b: LoadedView| named_before(a, b)),
{
    let ghost prec = |a: LoadedView, b: LoadedView| named_before(a, b);
    let ghost input = loaded_views(v@);
    let mut rest = v;
    let mut out: Vec<LoadedSkill> = Vec::new();
    let ghost mut i: int = 0;
    proof {
        assert(input.subrange(0, 0) =~= Seq::<LoadedView>::empty());
        assert(loaded_views(out@) =~= sorted_by(input.subrange(0, 0), prec));
        assert(loaded_views(rest@) =~= input.subrange(0, input.len() as int));
    }
    while rest.len() > 0
        invariant
            0 <= i <= input.len(),
            rest@.len() == input.len() - i,
            loaded_views(rest@) == input.subrange(i, input.len() as int),
            prec == (|a: LoadedView, b: LoadedView| named_before(a, b)),
            loaded_views(out@) == sorted_by(input.subrange(0, i), prec),
        decreases rest@.len(),
    {
        let ghost before_rest = rest@;
        let x = rest.remove(0);
        proof {
            assert(loaded_views(before_rest)[0] == before_rest[0]@);
            assert(input.subrange(i, input.len() as int)[0] == input[i]);
            assert(input[i] == x@);
            assert forall|j: int| 0 <= j < rest@.len() implies loaded_views(rest@)[j] == input.subrange(
                i + 1,
                input.len() as int,
            )[j] by {
                assert(rest@[j] == before_rest[j + 1]);
                assert(loaded_views(before_rest)[j + 1] == before_rest[j + 1]@);
                assert(input.subrange(i, input.len() as int)[j + 1] == input[i + 1 + j]);
            }
            assert(loaded_views(rest@) =~= input.subrange(i + 1, input.len() as int));
        }
        let xname = chars_of(x.meta.name.as_str());
        let mut k: usize = 0;
        while k < out.len() && !lex_less(&xname, &chars_of(out[k].meta.name.as_str()))
            invariant
                k <= out@.len(),
                xname@ == x@.meta.name,
                prec == (|a: LoadedView, b: LoadedView| named_before(a, b)),
                forall|j: int| 0 <= j < k ==> !prec(x@, loaded_views(out@)[j]),
            decreases out@.len() - k,
        {
            proof {
                assert(loaded_views(out@)[k as int] == out@[k as int]@);
            }
            k = k + 1;
        }
        let ghost before = loaded_views(out@);
        proof {
            if k < out@.len() {
                assert(before[k as int] == out@[k as int]@);
            }
            lemma_ins_pos(before, x@, prec, k as int);
            let sub = input.subrange(0, i + 1);
            assert(sub.drop_last() =~= input.subrange(0, i));
            assert(sub.last() == x@);
        }
        out.insert(k, x);
        proof {
            assert(loaded_views(out@) =~= before.insert(k as int, x@));
            i = i + 1;
        }
    }
    proof {
        assert(input.subrange(0, i) =~= input);
    }
    out
}

/// The metadata collection and the content collection, replaced together.
#[derive(Debug)]
pub struct CombinedIndex {
    pub skill_index: SkillIndex,
    pub content_index: ContentIndex,
}

impl CombinedIndex {
    pub open spec fn skills(self) -> Seq<SkillView> {
        self.skill_index.skill_views()
    }

    pub open spec fn entries(self) -> Seq<ContentEntryView> {
        self.content_index.entry_views()
    }

    /// Entry keys are unique and the manifests are ordered by name.
    pub open spec fn wf(self) -> bool {
        self.content_index.wf() && sorted_by_name(self.skills())
    }

    /// An empty index.
    pub fn new() -> (r: Self)
        ensures
            r.wf(),
            r.skills().len() == 0,
            r.entries().len() == 0,
    {
        CombinedIndex { skill_index: SkillIndex::new(), content_index: ContentIndex::new() }
    }

    /// Builds both collections from a scan of the skills directory: every
    /// directory not starting with `.` or `_` whose manifest loads gives one
    /// manifest; the manifests are ordered by name; their documents make the
    /// content collection; and every problem met is recorded.
    pub fn rebuild(scans: &Vec<SkillDirScan>) -> (r: Self)
        ensures
            r.wf(),
            r.skills() == built_skills(scans@),
            r.entries() == built_content(scans@),
            strs(r.skill_index.validation_errors@) == built_errors(scans@),
            sorted_by_name(r.skills()),
    {
        let mut items: Vec<LoadedSkill> = Vec::new();
        let mut errors: Vec<String> = Vec::new();
        let mut i: usize = 0;
        proof {
            assert(scans@.subrange(0, 0) =~= Seq::<SkillDirScan>::empty());
            assert(loaded_views(items@) =~= loaded(scans@.subrange(0, 0)));
            assert(strs(errors@) =~= built_errors(scans@.subrange(0, 0)));
        }
        while i < scans.len()
            invariant
                i <= scans@.len(),
                loaded_views(items@) == loaded(scans@.subrange(0, i as int)),
                strs(errors@) == built_errors(scans@.subrange(0, i as int)),
            decreases scans@.len() - i,
        {
            let scan = &scans[i];
            let ghost sub = scans@.subrange(0, i + 1);
            proof {
                assert(sub.drop_last() =~= scans@.subrange(0, i as int));
                assert(sub.last() == *scan);
            }
            let ghost items_before = loaded_views(items@);
            let ghost errors_before = strs(errors@);
            if !hidden(scan.dir_name.as_str()) {
                match load_skill(scan) {
                    Ok(item) => {
                        let prefix = scan.dir_name.clone().concat(": ");
                        match validate_meta(&item.meta) {
                            Ok(()) => {},
                            Err(msgs) => {
                                let mut k: usize = 0;
                                while k < msgs.len()
                                    invariant
                                        k <= msgs@.len(),
                                        prefix@ == scan.dir_name@ + ": "@,
                                        strs(errors@) == errors_before + prefixed(
                                            scan.dir_name@,
                                            strs(msgs@).subrange(0, k as int),
                                        ),
                                    decreases msgs@.len() - k,
                                {
                                    let ghost eb = errors@;
                                    let line = prefix.clone().concat(msgs[k].as_str());
                                    errors.push(line);
                                    proof {
                                        let target = errors_before + prefixed(
                                            scan.dir_name@,
                                            strs(msgs@).subrange(0, k + 1),
                                        );
                                        assert(strs(msgs@)[k as int] == msgs@[k as int]@);
                                        assert(strs(eb).len() == eb.len());
                                        assert(eb.len() == errors_before.len() + k);
                                        assert(target.len() == errors_before.len() + k + 1);
                                        assert(prefixed(scan.dir_name@, strs(msgs@).subrange(0, k + 1))[k as int]
                                            == scan.dir_name@ + ": "@ + strs(msgs@)[k as int]);
                                        assert(line@ == scan.dir_name@ + ": "@ + msgs@[k as int]@);
                                        assert forall|x: int| 0 <= x < errors@.len() implies strs(
                                            errors@,
                                        )[x] == target[x] by {
                                            if x < eb.len() {
                                                assert(errors@[x] == eb[x]);
                                                assert(strs(eb)[x] == eb[x]@);
                                            }
                                        }
                                        assert(strs(errors@) =~= errors_before + prefixed(
                                            scan.dir_name@,
                                            strs(msgs@).subrange(0, k + 1),
                                        ));
                                    }
                                    k = k + 1;
                                }
                                proof {
                                    assert(strs(msgs@).subrange(0, k as int) =~= strs(msgs@));
                                }
                            },
                        }
                        proof {
                            assert(item.meta@ == loaded_of(*scan).meta);
                            assert(strs(errors@) =~= errors_before + scan_messages(*scan));
                        }
                        items.push(item);
                        proof {
                            assert(loaded_views(items@) =~= items_before.push(loaded_of(*scan)));
                        }
                    },
                    Err(e) => {
                        let m = if scan.manifest.is_missing() {
                            let m = scan.dir_name.clone().concat(": Missing _meta.json");
                            proof {
                                reveal_strlit(": Missing _meta.json");
                                reveal_strlit(": ");
                                reveal_strlit("Missing _meta.json");
                                assert(m@ =~= scan.dir_name@ + ": Missing _meta.json"@);
                            }
                            m
                        } else {
                            scan.dir_name.clone().concat(": ").concat(e.message().as_str())
                        };
                        errors.push(m);
                        proof {
                            assert(strs(errors@) =~= errors_before + scan_messages(*scan));
                        }
                    },
                }
            } else {
                proof {
                    assert(strs(errors@) =~= errors_before + scan_messages(*scan));
                }
            }
            i = i + 1;
        }
        proof {
            assert(scans@.subrange(0, i as int) =~= scans@);
        }
        let sorted = sort_loaded(items);
        let ghost order = loaded_views(sorted@);
        let mut skills: Vec<SkillMeta> = Vec::new();
        let mut content = ContentIndex::new();
        let mut j: usize = 0;
        proof {
            assert(order.subrange(0, 0) =~= Seq::<LoadedView>::empty());
            assert(content.entry_views() =~= add_all(seq![], order.subrange(0, 0)));
        }
        while j < sorted.len()
            invariant
                j <= sorted@.len(),
                order == loaded_views(sorted@),
                order == built_order(scans@),
                content.wf(),
                skills@.len() == j,
                meta_views(skills@) == order.subrange(0, j as int).map_values(|l: LoadedView| l.meta),
                content.entry_views() == add_all(seq![], order.subrange(0, j as int)),
            decreases sorted@.len() - j,
        {
            let item = &sorted[j];
            proof {
                assert(order[j as int] == item@);
                assert(order.subrange(0, j + 1).drop_last() =~= order.subrange(0, j as int));
            }
            let ghost mb = skills@;
            let m = item.meta.clone();
            skills.push(m);
            proof {
                let target = order.subrange(0, j + 1).map_values(|l: LoadedView| l.meta);
                assert forall|x: int| 0 <= x < skills@.len() implies meta_views(skills@)[x]
                    == target[x] by {
                    if x < j {
                        assert(skills@[x] == mb[x]);
                        assert(meta_views(mb)[x] == mb[x]@);
                    }
                }
                assert(meta_views(skills@) =~= order.subrange(0, j + 1).map_values(
                    |l: LoadedView| l.meta,
                ));
            }
            let ghost cb = content.entry_views();
            let ghost dv = doc_views(item.documents@);
            let mut k: usize = 0;
            proof {
                assert(dv.subrange(0, 0) =~= Seq::<DocView>::empty());
            }
            while k < item.documents.len()
                invariant
                    k <= item.documents@.len(),
                    dv == doc_views(item.documents@),
                    content.wf(),
                    content.entry_views() == add_docs(cb, item.meta.name@, dv.subrange(0, k as int)),
                decreases item.documents@.len() - k,
            {
                let d = &item.documents[k];
                proof {
                    assert(dv[k as int] == d@);
                    assert(dv.subrange(0, k + 1).drop_last() =~= dv.subrange(0, k as int));
                }
                let entry = ContentIndexEntry::new(
                    item.meta.name.clone(),
                    crate::index::copy_opt(&d.sub_skill),
                    d.file.clone(),
                    d.content.clone(),
                );
                content.insert(entry);
                k = k + 1;
            }
            proof {
                assert(dv.subrange(0, k as int) =~= dv);
            }
            j = j + 1;
        }
        proof {
            assert(order.subrange(0, j as int) =~= order);
            lemma_built_sorted(scans@);
        }
        CombinedIndex { skill_index: SkillIndex::with_skills(skills, errors), content_index: content }
    }
}

/// `s` without the manifests named `name`, in order.
pub open spec fn without_name(s: Seq<SkillView>, name: Seq<char>) -> Seq<SkillView>
    decreases s.len(),
{
    if s.len() == 0 {
        seq![]
    } else {
        let prev = without_name(s.drop_last(), name);
        if s.last().name == name {
            prev
        } else {
            prev.push(s.last())
        }
    }
}

/// Sorts manifests by name, equal names keeping their order.
fn sort_metas(v: Vec<SkillMeta>) -> (r: Vec<SkillMeta>)
    ensures
        meta_views(r@) == sorted_by(meta_views(v@), |a: SkillView, b: SkillView| meta_before(a, b)),
{
    let ghost prec = |a: SkillView, b: SkillView| meta_before(a, b);
    let ghost input = meta_views(v@);
    let mut rest = v;
    let mut out: Vec<SkillMeta> = Vec::new();
    let ghost mut i: int = 0;
    proof {
        assert(input.subrange(0, 0) =~= Seq::<SkillView>::empty());
        assert(meta_views(out@) =~= sorted_by(input.subrange(0, 0), prec));
        assert(meta_views(rest@) =~= input.subrange(0, input.len() as int));
    }
    while rest.len() > 0
        invariant
            0 <= i <= input.len(),
            rest@.len() == input.len() - i,
            meta_views(rest@) == input.subrange(i, input.len() as int),
            prec == (|a: SkillView, b: SkillView| meta_before(a, b)),
            meta_views(out@) == sorted_by(input.subrange(0, i), prec),
        decreases rest@.len(),
    {
        let ghost before_rest = rest@;
        let x = rest.remove(0);
        proof {
            assert(meta_views(before_rest)[0] == before_rest[0]@);
            assert(input.subrange(i, input.len() as int)[0] == input[i]);
            assert(input[i] == x@);
            assert forall|j: int| 0 <= j < rest@.len() implies meta_views(rest@)[j] == input.subrange(
                i + 1,
                input.len() as int,
            )[j] by {
                assert(rest@[j] == before_rest[j + 1]);
                assert(meta_views(before_rest)[j + 1] == before_rest[j + 1]@);
                assert(input.subrange(i, input.len() as int)[j + 1] == input[i + 1 + j]);
            }
            assert(meta_views(rest@) =~= input.subrange(i + 1, input.len() as int));
        }
        let xname = chars_of(x.name.as_str());
        let mut k: usize = 0;
        while k < out.len() && !lex_less(&xname, &chars_of(out[k].name.as_str()))
            invariant
                k <= out@.len(),
                xname@ == x@.name,
                prec == (|a: SkillView, b: SkillView| meta_before(a, b)),
                forall|j: int| 0 <= j < k ==> !prec(x@, meta_views(out@)[j]),
            decreases out@.len() - k,
        {
            proof {
                assert(meta_views(out@)[k as int] == out@[k as int]@);
            }
            k = k + 1;
        }
        let ghost before = meta_views(out@);
        proof {
            if k < out@.len() {
                assert(before[k as int] == out@[k as int]@);
            }
            lemma_ins_pos(before, x@, prec, k as int);
            let sub = input.subrange(0, i + 1);
            assert(sub.drop_last() =~= input.subrange(0, i));
            assert(sub.last() == x@);
        }
        out.insert(k, x);
        proof {
            assert(meta_views(out@) =~= before.insert(k as int, x@));
            i = i + 1;
        }
    }
    proof {
        assert(input.subrange(0, i) =~= input);
    }
    out
}

/// Sorting manifests by name orders them by name.
pub proof fn lemma_sorted_metas(s: Seq<SkillView>)
    ensures
        sorted_by_name(sorted_by(s, |a: SkillView, b: SkillView| meta_before(a, b))),
{
    let prec = |a: SkillView, b: SkillView| meta_before(a, b);
    lemma_meta_before_strict();
    lemma_sorted_by_ordered(s, prec);
}

proof fn lemma_without_name(s: Seq<SkillView>, name: Seq<char>)
    ensures
        forall|i: int| 0 <= i < without_name(s, name).len() ==> (#[trigger] without_name(s, name)[i]).name != name,
        without_name(s, name).len() <= s.len(),
    decreases s.len(),
{
    if s.len() > 0 {
        lemma_without_name(s.drop_last(), name);
        let prev = without_name(s.drop_last(), name);
        assert forall|i: int| 0 <= i < without_name(s, name).len() implies (#[trigger] without_name(s, name)[i]).name != name by {
            if i < prev.len() {
                assert(without_name(s, name)[i] == prev[i]);
            }
        }
    }
}

proof fn lemma_without_name_sorted(s: Seq<SkillView>, name: Seq<char>)
    requires
        sorted_by_name(s),
    ensures
        sorted_by_name(without_name(s, name)),
        forall|i: int|
            #![trigger without_name(s, name)[i]]
            0 <= i < without_name(s, name).len() ==> exists|j: int|
                0 <= j < s.len() && without_name(s, name)[i] == #[trigger] s[j],
    decreases s.len(),
{
    if s.len() > 0 {
        let d = s.drop_last();
        assert(sorted_by_name(d)) by {
            assert forall|i: int, j: int| 0 <= i < j < d.len() implies !lex_lt(d[j].name, d[i].name) by {
                assert(d[i] == s[i] && d[j] == s[j]);
            }
        }
        lemma_without_name_sorted(d, name);
        let prev = without_name(d, name);
        let out = without_name(s, name);
        assert forall|i: int| #![trigger out[i]] 0 <= i < out.len() implies exists|j: int|
            0 <= j < s.len() && out[i] == #[trigger] s[j] by {
            if i < prev.len() {
                let j = choose|j: int| 0 <= j < d.len() && prev[i] == #[trigger] d[j];
                assert(out[i] == prev[i]);
                assert(s[j] == d[j]);
            } else {
                assert(out[i] == s[s.len() - 1]);
            }
        }
        assert forall|i: int, j: int| 0 <= i < j < out.len() implies !lex_lt(out[j].name, out[i].name) by {
            if j < prev.len() {
                assert(out[i] == prev[i] && out[j] == prev[j]);
            } else {
                let k = choose|k: int| 0 <= k < d.len() && prev[i] == #[trigger] d[k];
                assert(out[i] == prev[i]);
                assert(out[j] == s[s.len() - 1]);
                assert(s[k] == d[k]);
            }
        }
    }
}

/// Removing the manifests of a name twice removes no more than once.
pub proof fn lemma_without_name_idempotent(s: Seq<SkillView>, name: Seq<char>)
    ensures
        without_name(without_name(s, name), name) == without_name(s, name),
    decreases s.len(),
{
    lemma_without_name(s, name);
    lemma_without_name_keeps(without_name(s, name), name);
}

proof fn lemma_without_name_keeps(s: Seq<SkillView>, name: Seq<char>)
    requires
        forall|i: int| 0 <= i < s.len() ==> (#[trigger] s[i]).name != name,
    ensures
        without_name(s, name) == s,
    decreases s.len(),
{
    if s.len() > 0 {
        lemma_without_name_keeps(s.drop_last(), name);
        assert(s.drop_last().push(s.last()) =~= s);
    } else {
        assert(s =~= seq![]);
    }
}

proof fn lemma_without_domain_keeps(s: Seq<ContentEntryView>, d: Seq<char>)
    requires
        forall|i: int| 0 <= i < s.len() ==> (#[trigger] s[i]).domain != d,
    ensures
        without_domain(s, d) == s,
    decreases s.len(),
{
    if s.len() > 0 {
        lemma_without_domain_keeps(s.drop_last(), d);
        assert(s.drop_last().push(s.last()) =~= s);
    } else {
        assert(s =~= seq![]);
    }
}

/// Removing the entries of a domain twice removes no more than once.
pub proof fn lemma_without_domain_idempotent(s: Seq<ContentEntryView>, d: Seq<char>)
    ensures
        without_domain(without_domain(s, d), d) == without_domain(s, d),
{
    crate::index::lemma_without_domain(s, d);
    lemma_without_domain_keeps(without_domain(s, d), d);
}

/// A skill is gone from disk when its directory or its manifest is.
pub open spec fn gone(scan: Option<SkillDirScan>) -> bool {
    match scan {
        None => true,
        Some(s) => s.manifest is Missing,
    }
}

impl CombinedIndex {
    /// Removes a skill's manifest and all its content entries.
    pub fn remove_skill(&mut self, name: &str) -> (r: Result<(), IndexError>)
        requires
            old(self).wf(),
        ensures
            r is Ok,
            final(self).wf(),
            final(self).skills() == without_name(old(self).skills(), name@),
            final(self).entries() == without_domain(old(self).entries(), name@),
            final(self).skill_index.validation_errors == old(self).skill_index.validation_errors,
    {
        let target = name.to_owned();
        let ghost sv = self.skills();
        let mut kept: Vec<SkillMeta> = Vec::new();
        let mut i: usize = 0;
        proof {
            assert(sv.subrange(0, 0) =~= Seq::<SkillView>::empty());
            assert(meta_views(kept@) =~= Seq::<SkillView>::empty());
        }
        while i < self.skill_index.skills.len()
            invariant
                i <= self.skill_index.skills@.len(),
                sv == self.skills(),
                target@ == name@,
                meta_views(kept@) == without_name(sv.subrange(0, i as int), name@),
            decreases self.skill_index.skills@.len() - i,
        {
            proof {
                assert(sv.subrange(0, i + 1).drop_last() =~= sv.subrange(0, i as int));
                assert(sv[i as int] == self.skill_index.skills@[i as int]@);
            }
            if self.skill_index.skills[i].name != target {
                let ghost before = kept@;
                let m = self.skill_index.skills[i].clone();
                kept.push(m);
                proof {
                    assert forall|x: int| 0 <= x < kept@.len() implies meta_views(kept@)[x]
                        == meta_views(before).push(sv[i as int])[x] by {
                        if x < before.len() {
                            assert(kept@[x] == before[x]);
                        }
                    }
                    assert(meta_views(kept@) =~= meta_views(before).push(sv[i as int]));
                }
            }
            i = i + 1;
        }
        proof {
            assert(sv.subrange(0, i as int) =~= sv);
            lemma_without_name_sorted(sv, name@);
        }
        self.skill_index.skills = kept;
        self.content_index.remove_domain(name);
        Ok(())
    }

    /// Recomputes one skill from a fresh read of its directory (none when the
    /// directory is gone): a gone directory or manifest removes the skill; a
    /// directory of another name, or a manifest that fails to load, leaves the
    /// index as it was and reports why; otherwise the skill's manifest and
    /// entries replace the old ones and the manifests are ordered by name again.
    pub fn update_skill(&mut self, name: &str, scan: Option<&SkillDirScan>) -> (r: Result<
        (),
        IndexError,
    >)
        requires
            old(self).wf(),
        ensures
            final(self).wf(),
            final(self).skill_index.validation_errors == old(self).skill_index.validation_errors,
            ({
                let sc = match scan {
                    Some(s) => Some(*s),
                    None => None,
                };
                if gone(sc) {
                    &&& r is Ok
                    &&& final(self).skills() == without_name(old(self).skills(), name@)
                    &&& final(self).entries() == without_domain(old(self).entries(), name@)
                } else if sc.unwrap().dir_name@ != name@ {
                    &&& r matches Err(e) && e.kind() == ErrorKind::Validation
                    &&& final(self).skills() == old(self).skills()
                    &&& final(self).entries() == old(self).entries()
                } else if load_failure(sc.unwrap()) is Some {
                    &&& r matches Err(e) && Some(e.kind()) == load_failure(sc.unwrap())
                    &&& final(self).skills() == old(self).skills()
                    &&& final(self).entries() == old(self).entries()
                } else {
                    let l = loaded_of(sc.unwrap());
                    &&& r is Ok
                    &&& l.meta.name == name@
                    &&& final(self).skills() == sorted_by(
                        without_name(old(self).skills(), name@).push(l.meta),
                        |a: SkillView, b: SkillView| meta_before(a, b),
                    )
                    &&& final(self).entries() == add_docs(
                        without_domain(old(self).entries(), name@),
                        name@,
                        l.docs,
                    )
                }
            }),
    {
        let update = prepare_update(name, scan)?;
        proof {
            match scan {
                Some(s) => {
                    if !gone(Some(*s)) {
                        lemma_add_docs_as_entries(
                            without_domain(old(self).entries(), name@),
                            name@,
                            loaded_of(*s).docs,
                        );
                    }
                },
                None => {},
            }
        }
        self.apply_update(name, update);
        Ok(())
    }

    /// Installs a prepared update of one skill: its manifest and entries are
    /// removed, and the new ones, if any, put in; the manifests are ordered by
    /// name again.
    pub fn apply_update(&mut self, name: &str, update: SkillUpdate)
        requires
            old(self).wf(),
        ensures
            final(self).wf(),
            final(self).skill_index.validation_errors == old(self).skill_index.validation_errors,
            update is Remove ==> final(self).skills() == without_name(old(self).skills(), name@)
                && final(self).entries() == without_domain(old(self).entries(), name@),
            update matches SkillUpdate::Replace(m, es) ==> final(self).skills() == sorted_by(
                without_name(old(self).skills(), name@).push(m@),
                |a: SkillView, b: SkillView| meta_before(a, b),
            ) && final(self).entries() == insert_all(
                without_domain(old(self).entries(), name@),
                crate::index::entry_views(es@),
            ),
    {
        let _ = self.remove_skill(name);
        match update {
            SkillUpdate::Remove => {},
            SkillUpdate::Replace(meta, entries) => {
                let ghost removed = self.skills();
                let mut skills = crate::index::copy_metas(&self.skill_index.skills);
                let ghost before_push = meta_views(skills@);
                let ghost mv = meta@;
                skills.push(meta);
                proof {
                    assert(meta_views(skills@) =~= before_push.push(mv));
                }
                let sorted = sort_metas(skills);
                self.skill_index.skills = sorted;
                proof {
                    lemma_sorted_metas(removed.push(mv));
                }
                let ghost cb = self.entries();
                let ghost ev = crate::index::entry_views(entries@);
                let ghost final_skills = self.skills();
                let ghost mut k: int = 0;
                proof {
                    assert(ev.subrange(0, 0) =~= Seq::<ContentEntryView>::empty());
                }
                let mut rest = entries;
                while rest.len() > 0
                    invariant
                        0 <= k <= ev.len(),
                        rest@.len() == ev.len() - k,
                        crate::index::entry_views(rest@) == ev.subrange(k, ev.len() as int),
                        self.content_index.wf(),
                        self.skills() == final_skills,
                        sorted_by_name(final_skills),
                        self.skill_index.validation_errors == old(self).skill_index.validation_errors,
                        self.entries() == insert_all(cb, ev.subrange(0, k)),
                    decreases rest@.len(),
                {
                    let ghost before_rest = rest@;
                    let e = rest.remove(0);
                    proof {
                        assert(crate::index::entry_views(before_rest)[0] == before_rest[0]@);
                        assert(ev.subrange(k, ev.len() as int)[0] == ev[k]);
                        assert forall|j: int| 0 <= j < rest@.len() implies crate::index::entry_views(
                            rest@,
                        )[j] == ev.subrange(k + 1, ev.len() as int)[j] by {
                            assert(rest@[j] == before_rest[j + 1]);
                            assert(crate::index::entry_views(before_rest)[j + 1] == before_rest[j + 1]@);
                            assert(ev.subrange(k, ev.len() as int)[j + 1] == ev[k + 1 + j]);
                        }
                        assert(crate::index::entry_views(rest@) =~= ev.subrange(k + 1, ev.len() as int));
                        assert(ev.subrange(0, k + 1).drop_last() =~= ev.subrange(0, k));
                        assert(ev.subrange(0, k + 1).last() == e@);
                    }
                    self.content_index.insert(e);
                    proof {
                        k = k + 1;
                    }
                }
                proof {
                    assert(ev.subrange(0, k) =~= ev);
                }
            },
        }
    }
}

/// What an update of one skill installs.
#[derive(Debug)]
pub enum SkillUpdate {
    /// The skill is gone.
    Remove,
    /// Its manifest and the entries of its documents.
    Replace(SkillMeta, Vec<ContentIndexEntry>),
}

/// Does the work of an update that needs no access to the index: loads the
/// skill and indexes its documents.
pub fn prepare_update(name: &str, scan: Option<&SkillDirScan>) -> (r: Result<SkillUpdate, IndexError>)
    ensures
        ({
            let sc = match scan {
                Some(s) => Some(*s),
                None => None,
            };
            if gone(sc) {
                r matches Ok(u) && u is Remove
            } else if sc.unwrap().dir_name@ != name@ {
                r matches Err(e) && e.kind() == ErrorKind::Validation
            } else if load_failure(sc.unwrap()) is Some {
                r matches Err(e) && Some(e.kind()) == load_failure(sc.unwrap())
            } else {
                r matches Ok(SkillUpdate::Replace(m, es)) && m@ == loaded_of(sc.unwrap()).meta
                    && m@.name == name@ && crate::index::entry_views(es@) == doc_entries(
                    name@,
                    loaded_of(sc.unwrap()).docs,
                )
            }
        }),
{
    let s = match scan {
        None => {
            return Ok(SkillUpdate::Remove);
        },
        Some(s) => s,
    };
    if s.manifest.is_missing() {
        return Ok(SkillUpdate::Remove);
    }
    if s.dir_name != String::from_str(name) {
        {
            return Err(
                IndexError::ValidationError(
                    String::from_str("Directory '").concat(s.dir_name.as_str()).concat(
                        "' is not the skill '",
                    ).concat(name).concat("'"),
                ),
            );
        }
    }
    let item = match load_skill(s) {
        Ok(item) => item,
        Err(e) => {
            return Err(e);
        },
    };
    let ghost dv = doc_views(item.documents@);
    let mut entries: Vec<ContentIndexEntry> = Vec::new();
    let mut k: usize = 0;
    while k < item.documents.len()
        invariant
            k <= item.documents@.len(),
            dv == doc_views(item.documents@),
            entries@.len() == k,
            crate::index::entry_views(entries@) == doc_entries(name@, dv.subrange(0, k as int)),
        decreases item.documents@.len() - k,
    {
        let d = &item.documents[k];
        proof {
            assert(dv[k as int] == d@);
        }
        let ghost before = entries@;
        let entry = ContentIndexEntry::new(
            String::from_str(name),
            crate::index::copy_opt(&d.sub_skill),
            d.file.clone(),
            d.content.clone(),
        );
        entries.push(entry);
        proof {
            let lhs = crate::index::entry_views(entries@);
            let rhs = doc_entries(name@, dv.subrange(0, k + 1));
            assert forall|j: int| 0 <= j < k + 1 implies lhs[j] == rhs[j] by {
                if j < k {
                    assert(entries@[j] == before[j]);
                    assert(crate::index::entry_views(before)[j] == before[j]@);
                    assert(doc_entries(name@, dv.subrange(0, k as int))[j] == rhs[j]);
                }
            }
            assert(lhs =~= rhs);
        }
        k = k + 1;
    }
    proof {
        assert(dv.subrange(0, k as int) =~= dv);
    }
    Ok(SkillUpdate::Replace(item.meta, entries))
}

impl ManifestState {
    pub fn is_missing(&self) -> (r: bool)
        ensures
            r == (*self is Missing),
    {
        match self {
            ManifestState::Missing => true,
            _ => false,
        }
    }
}

/// What reading a document gave.
#[derive(Debug)]
pub enum DocumentRead {
    /// No such file.
    Missing,
    /// It could not be read; why.
    Failed(String),
    /// Its text.
    Read(String),
}

/// The first manifest with the given name, if any.
pub open spec fn named(s: Seq<SkillView>, name: Seq<char>) -> Option<SkillView> {
    if exists|i: int| crate::index::first_named(s, name, i) {
        Some(s[choose|i: int| crate::index::first_named(s, name, i)])
    } else {
        None
    }
}

/// The names of a manifest's sub-skills.
pub open spec fn sub_names(m: SkillView) -> Seq<Seq<char>> {
    subs_of(m).map_values(|x: crate::meta::SubSkillView| x.name)
}

/// The first sub-skill entry with the given name, if any.
pub open spec fn named_sub(m: SkillView, sub: Seq<char>) -> Option<crate::meta::SubSkillView> {
    if exists|i: int| 0 <= i < subs_of(m).len() && subs_of(m)[i].name == sub {
        Some(
            subs_of(m)[choose|i: int|
                0 <= i < subs_of(m).len() && subs_of(m)[i].name == sub && forall|j: int|
                    0 <= j < i ==> subs_of(m)[j].name != sub],
        )
    } else {
        None
    }
}

proof fn lemma_first_named_unique(s: Seq<SkillView>, name: Seq<char>, a: int, b: int)
    requires
        crate::index::first_named(s, name, a),
        crate::index::first_named(s, name, b),
    ensures
        a == b,
{
}

/// The path components of `path` below those of `root`: the first names a
/// skill unless it starts with `.` or `_`.
pub open spec fn skill_of_path(root: Seq<Seq<char>>, path: Seq<Seq<char>>) -> Option<Seq<char>> {
    if root.len() < path.len() && path.subrange(0, root.len() as int) == root && !is_hidden(
        path[root.len() as int],
    ) && path[root.len() as int].len() > 0 {
        Some(path[root.len() as int])
    } else {
        None
    }
}

/// Maps a changed path, given as path components, to the skill it belongs to.
pub fn skill_from_path(root: &Vec<String>, path: &Vec<String>) -> (r: Option<String>)
    ensures
        opt_str(r) == skill_of_path(strs(root@), strs(path@)),
{
    if root.len() >= path.len() {
        return None;
    }
    let mut i: usize = 0;
    while i < root.len()
        invariant
            i <= root@.len(),
            root@.len() < path@.len(),
            forall|j: int| 0 <= j < i ==> root@[j]@ == path@[j]@,
        decreases root@.len() - i,
    {
        if root[i] != path[i] {
            proof {
                assert(strs(path@).subrange(0, root@.len() as int)[i as int] == path@[i as int]@);
                assert(strs(root@)[i as int] == root@[i as int]@);
            }
            return None;
        }
        i = i + 1;
    }
    proof {
        assert forall|j: int| 0 <= j < root@.len() implies strs(path@).subrange(0, root@.len() as int)[j]
            == strs(root@)[j] by {
            assert(root@[j]@ == path@[j]@);
        }
        assert(strs(path@).subrange(0, root@.len() as int) =~= strs(root@));
        assert(strs(path@)[root@.len() as int] == path@[root@.len() as int]@);
    }
    let first = &path[root.len()];
    if hidden(first.as_str()) || first.as_str().is_empty() {
        None
    } else {
        Some(first.clone())
    }
}

impl CombinedIndex {
    /// A copy of the manifest with the given name.
    pub fn get_skill_meta(&self, name: &str) -> (r: Option<SkillMeta>)
        ensures
            match r {
                Some(m) => named(self.skills(), name@) == Some(m@),
                None => named(self.skills(), name@) is None,
            },
    {
        match self.skill_index.find(name) {
            Some(m) => {
                proof {
                    let i = choose|i: int| crate::index::first_named(self.skills(), name@, i)
                        && self.skill_index.skills@[i] == *m;
                    let k = choose|k: int| crate::index::first_named(self.skills(), name@, k);
                    lemma_first_named_unique(self.skills(), name@, i, k);
                    assert(self.skills()[i] == self.skill_index.skills@[i]@);
                }
                Some(m.clone())
            },
            None => {
                proof {
                    if exists|i: int| crate::index::first_named(self.skills(), name@, i) {
                        let i = choose|i: int| crate::index::first_named(self.skills(), name@, i);
                        assert(self.skills()[i] == self.skill_index.skills@[i]@);
                    }
                }
                None
            },
        }
    }

    /// A skill's primary document as read, with the names of its sub-skills
    /// from the index.
    pub fn skill_content(&self, name: &str, primary: DocumentRead, has_references: bool) -> (r:
        Result<SkillContent, IndexError>)
        ensures
            primary is Missing ==> (r matches Err(e) && e.kind() == ErrorKind::NotFound),
            primary is Failed ==> (r matches Err(e) && e.kind() == ErrorKind::Read),
            primary matches DocumentRead::Read(text) ==> (r matches Ok(c) && c.name@ == name@
                && c.content == text && c.has_references == has_references && strs(c.sub_skills@)
                == match named(self.skills(), name@) {
                Some(m) => sub_names(m),
                None => seq![],
            }),
    {
        match primary {
            DocumentRead::Missing => Err(
                IndexError::NotFound(
                    String::from_str("SKILL.md not found for '").concat(name).concat("'"),
                ),
            ),
            DocumentRead::Failed(why) => Err(IndexError::ReadError(why)),
            DocumentRead::Read(text) => {
                let subs = match self.get_skill_meta(name) {
                    Some(m) => {
                        let names = m.sub_skill_names();
                        proof {
                            assert(strs(names@) =~= sub_names(m@)) by {
                                assert forall|i: int| 0 <= i < names@.len() implies strs(names@)[i]
                                    == sub_names(m@)[i] by {
                                    assert(subs_of(m@) == sub_views(m.subs()));
                                    assert(sub_views(m.subs())[i] == m.subs()[i]@);
                                }
                            }
                        }
                        names
                    },
                    None => Vec::new(),
                };
                proof {
                    if named(self.skills(), name@) is None {
                        assert(strs(subs@) =~= Seq::<Seq<char>>::empty());
                    }
                }
                Ok(
                    SkillContent::new(String::from_str(name), text).with_sub_skills(
                        subs,
                    ).with_references(has_references),
                )
            },
        }
    }

    /// The path of a sub-skill's document, from the index.
    pub fn sub_skill_file(&self, domain: &str, sub_skill: &str) -> (r: Result<String, IndexError>)
        ensures
            named(self.skills(), domain@) is None ==> (r matches Err(e) && e.kind()
                == ErrorKind::NotFound),
            named(self.skills(), domain@) matches Some(m) ==> match named_sub(m, sub_skill@) {
                None => (r matches Err(e) && e.kind() == ErrorKind::NotFound),
                Some(x) => (r matches Ok(f) && f@ == x.file),
            },
    {
        let meta = match self.get_skill_meta(domain) {
            Some(m) => m,
            None => {
                return Err(
                    IndexError::NotFound(
                        String::from_str("Skill '").concat(domain).concat("' not found"),
                    ),
                );
            },
        };
        match meta.find_sub_skill(sub_skill) {
            Some(x) => {
                proof {
                    let i = choose|i: int|
                        0 <= i < meta.subs().len() && meta.subs()[i] == *x && x.name@ == sub_skill@
                            && forall|j: int| 0 <= j < i ==> meta.subs()[j].name@ != sub_skill@;
                    let m = meta@;
                    assert(subs_of(m) == sub_views(meta.subs()));
                    assert forall|j: int| 0 <= j < i implies subs_of(m)[j].name != sub_skill@ by {
                        assert(sub_views(meta.subs())[j] == meta.subs()[j]@);
                    }
                    assert(sub_views(meta.subs())[i] == meta.subs()[i]@);
                    let k = choose|k: int|
                        0 <= k < subs_of(m).len() && subs_of(m)[k].name == sub_skill@ && forall|j: int|
                            0 <= j < k ==> subs_of(m)[j].name != sub_skill@;
                    if k < i {
                    } else if i < k {
                    }
                    assert(k == i);
                }
                Ok(x.file.clone())
            },
            None => {
                proof {
                    let m = meta@;
                    assert(subs_of(m) == sub_views(meta.subs()));
                    assert forall|i: int| 0 <= i < subs_of(m).len() implies subs_of(m)[i].name != sub_skill@ by {
                        assert(sub_views(meta.subs())[i] == meta.subs()[i]@);
                    }
                }
                Err(
                    IndexError::NotFound(
                        String::from_str("Sub-skill '").concat(sub_skill).concat("' not found in '").concat(
                            domain,
                        ).concat("'"),
                    ),
                )
            },
        }
    }

    /// A sub-skill's document, once its path has been located, checked and
    /// read.
    pub fn sub_skill_content(
        &self,
        domain: &str,
        sub_skill: &str,
        resolution: &PathResolution,
        read: DocumentRead,
    ) -> (r: Result<SubSkillContent, IndexError>)
        ensures
            r matches Ok(c) ==> (c.domain@ == domain@ && c.sub_skill@ == sub_skill@ && read
                == DocumentRead::Read(c.content) && *resolution is Inside),
            (named(self.skills(), domain@) matches Some(m) && named_sub(m, sub_skill@) matches Some(
                x,
            ) && !lexically_escapes(x.file) && *resolution is Inside && read is Read) ==> r is Ok,
            r matches Err(e) && e.kind() == ErrorKind::Validation ==> (named(self.skills(), domain@) matches Some(m)
                && named_sub(m, sub_skill@) matches Some(x) && (lexically_escapes(x.file)
                || *resolution is Outside)),
            named(self.skills(), domain@) is None ==> (r matches Err(e) && e.kind()
                == ErrorKind::NotFound),
            (named(self.skills(), domain@) matches Some(m) && named_sub(m, sub_skill@) is None) ==> (
            r matches Err(e) && e.kind() == ErrorKind::NotFound),
            (named(self.skills(), domain@) matches Some(m) && named_sub(m, sub_skill@) matches Some(x)
                && (lexically_escapes(x.file) || *resolution is Outside)) ==> (r matches Err(e)
                && e.kind() == ErrorKind::Validation),
            (named(self.skills(), domain@) matches Some(m) && named_sub(m, sub_skill@) matches Some(x)
                && !lexically_escapes(x.file)) ==> (*resolution is Missing ==> (r matches Err(e)
                && e.kind() == ErrorKind::NotFound)) && (*resolution is Failed ==> (r matches Err(
                e,
            ) && e.kind() == ErrorKind::Read)) && (*resolution is Inside && read is Missing ==> (
            r matches Err(e) && e.kind() == ErrorKind::NotFound)) && (*resolution is Inside
                && read is Failed ==> (r matches Err(e) && e.kind() == ErrorKind::Read)),
    {
        let file = match self.sub_skill_file(domain, sub_skill) {
            Ok(f) => f,
            Err(e) => {
                return Err(e);
            },
        };
        match validate_sub_skill_path(file.as_str(), resolution) {
            Ok(()) => {},
            Err(e) => {
                return Err(e);
            },
        }
        match read {
            DocumentRead::Missing => Err(
                IndexError::NotFound(String::from_str("Sub-skill file not found: ").concat(file.as_str())),
            ),
            DocumentRead::Failed(why) => Err(IndexError::ReadError(why)),
            DocumentRead::Read(text) => Ok(
                SubSkillContent::new(String::from_str(domain), String::from_str(sub_skill), text),
            ),
        }
    }
}

proof fn lemma_loaded_from(scans: Seq<SkillDirScan>)
    ensures
        forall|k: int|
            #![trigger loaded(scans)[k]]
            0 <= k < loaded(scans).len() ==> exists|j: int|
                0 <= j < scans.len() && !is_hidden((#[trigger] scans[j]).dir_name@) && load_failure(
                    scans[j],
                ) is None && loaded(scans)[k] == loaded_of(scans[j]),
        forall|j: int|
            0 <= j < scans.len() && !is_hidden(scans[j].dir_name@) && load_failure(scans[j]) is None
                ==> loaded(scans).contains(loaded_of(#[trigger] scans[j])),
    decreases scans.len(),
{
    if scans.len() > 0 {
        let d = scans.drop_last();
        lemma_loaded_from(d);
        let prev = loaded(d);
        let out = loaded(scans);
        assert forall|k: int| #![trigger out[k]] 0 <= k < out.len() implies exists|j: int|
            0 <= j < scans.len() && !is_hidden((#[trigger] scans[j]).dir_name@) && load_failure(
                scans[j],
            ) is None && out[k] == loaded_of(scans[j]) by {
            if k < prev.len() {
                let j = choose|j: int|
                    0 <= j < d.len() && !is_hidden((#[trigger] d[j]).dir_name@) && load_failure(d[j])
                        is None && prev[k] == loaded_of(d[j]);
                assert(out[k] == prev[k]);
                assert(scans[j] == d[j]);
            } else {
                assert(out[k] == loaded_of(scans[scans.len() - 1]));
            }
        }
        assert forall|j: int|
            0 <= j < scans.len() && !is_hidden(scans[j].dir_name@) && load_failure(scans[j]) is None
                implies out.contains(loaded_of(#[trigger] scans[j])) by {
            if j < d.len() {
                assert(scans[j] == d[j]);
                assert(prev.contains(loaded_of(d[j])));
                let k = choose|k: int| 0 <= k < prev.len() && prev[k] == loaded_of(d[j]);
                assert(out[k] == prev[k]);
            } else {
                assert(out[out.len() - 1] == loaded_of(scans[j]));
            }
        }
    }
}

/// Every manifest of a rebuilt index comes from a directory that is not
/// hidden, whose manifest was there, readable, well formed and free of
/// escaping paths when the directory was scanned, and that bears its name.
pub proof fn lemma_rebuild_sources(scans: Seq<SkillDirScan>)
    ensures
        forall|i: int|
            #![trigger built_skills(scans)[i]]
            0 <= i < built_skills(scans).len() ==> exists|j: int|
                0 <= j < scans.len() && !is_hidden((#[trigger] scans[j]).dir_name@)
                    && scans[j].manifest is Loaded && load_failure(scans[j]) is None
                    && built_skills(scans)[i] == loaded_of(scans[j]).meta
                    && built_skills(scans)[i].name == scans[j].dir_name@,
{
    let prec = |a: LoadedView, b: LoadedView| named_before(a, b);
    lemma_loaded_from(scans);
    lemma_sorted_by_elements(loaded(scans), prec);
    let o = built_order(scans);
    let l = loaded(scans);
    assert forall|i: int| #![trigger built_skills(scans)[i]] 0 <= i < built_skills(scans).len() implies exists|j: int|
        0 <= j < scans.len() && !is_hidden((#[trigger] scans[j]).dir_name@)
            && scans[j].manifest is Loaded && load_failure(scans[j]) is None
            && built_skills(scans)[i] == loaded_of(scans[j]).meta
            && built_skills(scans)[i].name == scans[j].dir_name@ by {
        assert(built_skills(scans)[i] == o[i].meta);
        let k = choose|k: int| 0 <= k < l.len() && o[i] == #[trigger] l[k];
        assert(l[k] == loaded(scans)[k]);
        let j = choose|j: int|
            0 <= j < scans.len() && !is_hidden((#[trigger] scans[j]).dir_name@) && load_failure(
                scans[j],
            ) is None && loaded(scans)[k] == loaded_of(scans[j]);
        assert(scans[j].manifest is Loaded);
    }
}

/// A manifest that loads is in the rebuilt index unchanged; where names are
/// unique, looking its name up gives it back, with the same tags and
/// sub-skills.
pub proof fn lemma_rebuild_round_trip(scans: Seq<SkillDirScan>, j: int)
    requires
        0 <= j < scans.len(),
        !is_hidden(scans[j].dir_name@),
        load_failure(scans[j]) is None,
    ensures
        built_skills(scans).contains(loaded_of(scans[j]).meta),
        crate::index::names_unique(built_skills(scans)) ==> named(
            built_skills(scans),
            loaded_of(scans[j]).meta.name,
        ) == Some(loaded_of(scans[j]).meta),
{
    broadcast use vstd::seq_lib::group_to_multiset_ensures;

    let prec = |a: LoadedView, b: LoadedView| named_before(a, b);
    lemma_loaded_from(scans);
    lemma_sorted_by_elements(loaded(scans), prec);
    let x = loaded_of(scans[j]);
    let l = loaded(scans);
    let o = built_order(scans);
    assert(l.contains(x));
    assert(l.to_multiset().count(x) > 0);
    assert(o.to_multiset().count(x) > 0);
    assert(o.contains(x));
    let i = choose|i: int| 0 <= i < o.len() && o[i] == x;
    let bs = built_skills(scans);
    assert(bs[i] == x.meta);
    if crate::index::names_unique(bs) {
        assert(crate::index::first_named(bs, x.meta.name, i));
        let k = choose|k: int| crate::index::first_named(bs, x.meta.name, k);
        lemma_first_named_unique(bs, x.meta.name, i, k);
    }
}

/// Rebuilding from the same scan gives the same collections.
pub proof fn lemma_rebuild_deterministic(scans: Seq<SkillDirScan>, a: CombinedIndex, b: CombinedIndex)
    requires
        a.skills() == built_skills(scans),
        a.entries() == built_content(scans),
        b.skills() == built_skills(scans),
        b.entries() == built_content(scans),
    ensures
        a.skills() == b.skills(),
        a.entries() == b.entries(),
{
}

/// After a skill is removed no manifest and no entry of it is left, and
/// removing it again changes nothing.
pub proof fn lemma_removal_complete(
    skills: Seq<SkillView>,
    entries: Seq<ContentEntryView>,
    name: Seq<char>,
)
    ensures
        forall|i: int|
            0 <= i < without_name(skills, name).len() ==> (#[trigger] without_name(skills, name)[i]).name != name,
        forall|i: int|
            0 <= i < without_domain(entries, name).len() ==> (#[trigger] without_domain(
                entries,
                name,
            )[i]).domain != name,
        without_name(without_name(skills, name), name) == without_name(skills, name),
        without_domain(without_domain(entries, name), name) == without_domain(entries, name),
{
    lemma_without_name(skills, name);
    crate::index::lemma_without_domain(entries, name);
    lemma_without_name_idempotent(skills, name);
    lemma_without_domain_idempotent(entries, name);
}

impl CombinedIndex {
    /// An independent copy of both collections.
    pub fn snapshot(&self) -> (r: CombinedIndex)
        ensures
            r.skills() == self.skills(),
            r.entries() == self.entries(),
            strs(r.skill_index.validation_errors@) == strs(self.skill_index.validation_errors@),
            r.wf() == self.wf(),
    {
        let skills = crate::index::copy_metas(&self.skill_index.skills);
        let errors = crate::meta::copy_strings(&self.skill_index.validation_errors);
        let mut entries: Vec<ContentIndexEntry> = Vec::new();
        let mut i: usize = 0;
        while i < self.content_index.entries.len()
            invariant
                i <= self.content_index.entries@.len(),
                entries@.len() == i,
                crate::index::entry_views(entries@) == self.entries().subrange(0, i as int),
            decreases self.content_index.entries@.len() - i,
        {
            let ghost before = entries@;
            let e = self.content_index.entries[i].clone();
            entries.push(e);
            proof {
                let lhs = crate::index::entry_views(entries@);
                let rhs = self.entries().subrange(0, i + 1);
                assert forall|j: int| 0 <= j < i + 1 implies lhs[j] == rhs[j] by {
                    if j < i {
                        assert(entries@[j] == before[j]);
                        assert(crate::index::entry_views(before)[j] == before[j]@);
                    } else {
                        assert(self.entries()[j] == self.content_index.entries@[j]@);
                    }
                }
                assert(lhs =~= rhs);
            }
            i = i + 1;
        }
        proof {
            assert(self.entries().subrange(0, i as int) =~= self.entries());
        }
        CombinedIndex {
            skill_index: SkillIndex {
                skills,
                validation_errors: errors,
                last_updated: self.skill_index.last_updated,
            },
            content_index: ContentIndex { entries, last_updated: self.content_index.last_updated },
        }
    }
}

/// No two documents of a skill are the same sub-skill at the same path.
pub open spec fn docs_distinct(docs: Seq<DocView>) -> bool {
    forall|i: int, j: int|
        0 <= i < docs.len() && 0 <= j < docs.len() && i != j ==> (docs[i].sub_skill, docs[i].file)
            != (docs[j].sub_skill, docs[j].file)
}

proof fn lemma_insert_all(c: Seq<ContentEntryView>, es: Seq<ContentEntryView>)
    requires
        crate::index::slots_unique(c),
        crate::index::slots_unique(es),
    ensures
        crate::index::slots_unique(insert_all(c, es)),
        forall|k: int| 0 <= k < es.len() ==> insert_all(c, es).contains(#[trigger] es[k]),
        forall|x: ContentEntryView|
            #[trigger] c.contains(x) && (forall|k: int| 0 <= k < es.len() ==> es[k].slot() != x.slot())
                ==> insert_all(c, es).contains(x),
        forall|x: ContentEntryView| #[trigger] insert_all(c, es).contains(x) ==> c.contains(x) || es.contains(x),
    decreases es.len(),
{
    if es.len() > 0 {
        let d = es.drop_last();
        let e = es.last();
        assert(crate::index::slots_unique(d)) by {
            assert forall|i: int, j: int|
                0 <= i < d.len() && 0 <= j < d.len() && i != j implies d[i].slot() != d[j].slot() by {
                assert(d[i] == es[i] && d[j] == es[j]);
            }
        }
        lemma_insert_all(c, d);
        let p = insert_all(c, d);
        crate::index::lemma_upsert_unique(p, e);
        assert forall|k: int| 0 <= k < es.len() implies insert_all(c, es).contains(#[trigger] es[k]) by {
            if k < d.len() {
                assert(d[k] == es[k]);
                assert(p.contains(d[k]));
                assert(es[k].slot() != es[es.len() - 1].slot());
            }
        }
        assert forall|x: ContentEntryView|
            #[trigger] c.contains(x) && (forall|k: int| 0 <= k < es.len() ==> es[k].slot() != x.slot())
                implies insert_all(c, es).contains(x) by {
            assert forall|k: int| 0 <= k < d.len() implies d[k].slot() != x.slot() by {
                assert(d[k] == es[k]);
            }
            assert(p.contains(x));
            assert(es[es.len() - 1].slot() != x.slot());
        }
        assert forall|x: ContentEntryView| #[trigger] insert_all(c, es).contains(x) implies c.contains(x)
            || es.contains(x) by {
            if x == e {
                assert(es[es.len() - 1] == x);
            } else {
                assert(p.contains(x));
                if d.contains(x) {
                    let k = choose|k: int| 0 <= k < d.len() && d[k] == x;
                    assert(es[k] == x);
                }
            }
        }
    }
}

proof fn lemma_doc_entries_unique(domain: Seq<char>, docs: Seq<DocView>)
    requires
        docs_distinct(docs),
    ensures
        crate::index::slots_unique(doc_entries(domain, docs)),
        forall|x: ContentEntryView| #[trigger] doc_entries(domain, docs).contains(x) ==> x.domain == domain,
{
    let es = doc_entries(domain, docs);
    assert forall|i: int, j: int|
        0 <= i < es.len() && 0 <= j < es.len() && i != j implies es[i].slot() != es[j].slot() by {
        assert((docs[i].sub_skill, docs[i].file) != (docs[j].sub_skill, docs[j].file));
    }
    assert forall|x: ContentEntryView| #[trigger] es.contains(x) implies x.domain == domain by {
        let k = choose|k: int| 0 <= k < es.len() && es[k] == x;
    }
}

/// Skills, one per name, each with distinct documents.
pub open spec fn loaded_distinct(ls: Seq<LoadedView>) -> bool {
    &&& forall|i: int, j: int|
        0 <= i < ls.len() && 0 <= j < ls.len() && i != j ==> ls[i].meta.name != ls[j].meta.name
    &&& forall|i: int| 0 <= i < ls.len() ==> docs_distinct(#[trigger] ls[i].docs)
}

proof fn lemma_add_all(ls: Seq<LoadedView>)
    requires
        loaded_distinct(ls),
    ensures
        crate::index::slots_unique(add_all(seq![], ls)),
        forall|i: int, k: int|
            0 <= i < ls.len() && 0 <= k < ls[i].docs.len() ==> add_all(seq![], ls).contains(
                #[trigger] doc_entries(ls[i].meta.name, ls[i].docs)[k],
            ),
        forall|x: ContentEntryView|
            #[trigger] add_all(seq![], ls).contains(x) ==> exists|i: int|
                0 <= i < ls.len() && x.domain == #[trigger] ls[i].meta.name,
    decreases ls.len(),
{
    if ls.len() == 0 {
        assert(crate::index::slots_unique(Seq::<ContentEntryView>::empty()));
    } else {
        let d = ls.drop_last();
        let l = ls.last();
        assert(loaded_distinct(d)) by {
            assert forall|i: int, j: int|
                0 <= i < d.len() && 0 <= j < d.len() && i != j implies d[i].meta.name != d[j].meta.name by {
                assert(d[i] == ls[i] && d[j] == ls[j]);
            }
            assert forall|i: int| 0 <= i < d.len() implies docs_distinct(#[trigger] d[i].docs) by {
                assert(d[i] == ls[i]);
            }
        }
        lemma_add_all(d);
        let p = add_all(seq![], d);
        let es = doc_entries(l.meta.name, l.docs);
        assert(docs_distinct(ls[ls.len() - 1].docs));
        lemma_doc_entries_unique(l.meta.name, l.docs);
        lemma_add_docs_as_entries(p, l.meta.name, l.docs);
        lemma_insert_all(p, es);
        let out = add_all(seq![], ls);
        assert(out == insert_all(p, es));
        assert forall|i: int, k: int|
            0 <= i < ls.len() && 0 <= k < ls[i].docs.len() implies out.contains(
            #[trigger] doc_entries(ls[i].meta.name, ls[i].docs)[k],
        ) by {
            if i < d.len() {
                assert(d[i] == ls[i]);
                let x = doc_entries(d[i].meta.name, d[i].docs)[k];
                assert(p.contains(x));
                assert forall|m: int| 0 <= m < es.len() implies es[m].slot() != x.slot() by {
                    assert(ls[i].meta.name != ls[ls.len() - 1].meta.name);
                }
            } else {
                assert(es[k] == doc_entries(ls[i].meta.name, ls[i].docs)[k]);
            }
        }
        assert forall|x: ContentEntryView| #[trigger] out.contains(x) implies exists|i: int|
            0 <= i < ls.len() && x.domain == #[trigger] ls[i].meta.name by {
            if p.contains(x) {
                let i = choose|i: int| 0 <= i < d.len() && x.domain == #[trigger] d[i].meta.name;
                assert(ls[i] == d[i]);
            } else {
                assert(es.contains(x));
                assert(x.domain == ls[ls.len() - 1].meta.name);
            }
        }
    }
}

/// Directories whose names are pairwise distinct, as in one directory on disk.
pub open spec fn dir_names_distinct(scans: Seq<SkillDirScan>) -> bool {
    forall|i: int, j: int|
        0 <= i < scans.len() && 0 <= j < scans.len() && i != j ==> scans[i].dir_name@
            != scans[j].dir_name@
}

proof fn lemma_loaded_distinct(scans: Seq<SkillDirScan>)
    requires
        dir_names_distinct(scans),
        forall|j: int| 0 <= j < scans.len() ==> docs_distinct(doc_views((#[trigger] scans[j]).documents@)),
    ensures
        loaded_distinct(loaded(scans)),
    decreases scans.len(),
{
    lemma_loaded_from(scans);
    let l = loaded(scans);
    assert forall|i: int, j: int|
        0 <= i < l.len() && 0 <= j < l.len() && i != j implies l[i].meta.name != l[j].meta.name by {
        lemma_loaded_order(scans, i, j);
    }
    assert forall|i: int| 0 <= i < l.len() implies docs_distinct(#[trigger] l[i].docs) by {
        let j = choose|j: int|
            0 <= j < scans.len() && !is_hidden((#[trigger] scans[j]).dir_name@) && load_failure(scans[j])
                is None && l[i] == loaded_of(scans[j]);
    }
}

/// Two places of the loaded skills come from two different directories.
proof fn lemma_loaded_order(scans: Seq<SkillDirScan>, i: int, j: int)
    requires
        dir_names_distinct(scans),
        0 <= i < loaded(scans).len(),
        0 <= j < loaded(scans).len(),
        i != j,
    ensures
        loaded(scans)[i].meta.name != loaded(scans)[j].meta.name,
    decreases scans.len(),
{
    let d = scans.drop_last();
    let p = loaded(d);
    assert(dir_names_distinct(d)) by {
        assert forall|a: int, b: int|
            0 <= a < d.len() && 0 <= b < d.len() && a != b implies d[a].dir_name@ != d[b].dir_name@ by {
            assert(d[a] == scans[a] && d[b] == scans[b]);
        }
    }
    lemma_loaded_from(d);
    if i < p.len() && j < p.len() {
        lemma_loaded_order(d, i, j);
    } else {
        let (a, b) = if i < p.len() {
            (i, j)
        } else {
            (j, i)
        };
        let last = scans[scans.len() - 1];
        assert(loaded(scans)[b] == loaded_of(last));
        assert(loaded(scans)[a] == p[a]);
        let k = choose|k: int|
            0 <= k < d.len() && !is_hidden((#[trigger] d[k]).dir_name@) && load_failure(d[k]) is None
                && p[a] == loaded_of(d[k]);
        assert(d[k] == scans[k]);
        assert(scans[k].dir_name@ != last.dir_name@);
    }
}

/// When the directories have distinct names and each skill's documents are
/// distinct, the rebuilt manifests have distinct names, every document of
/// every loaded skill has an entry of its own, and every entry belongs to a
/// manifest.
pub proof fn lemma_rebuild_indexes_every_document(scans: Seq<SkillDirScan>)
    requires
        dir_names_distinct(scans),
        forall|j: int| 0 <= j < scans.len() ==> docs_distinct(doc_views((#[trigger] scans[j]).documents@)),
    ensures
        crate::index::names_unique(built_skills(scans)),
        forall|j: int, k: int|
            0 <= j < scans.len() && !is_hidden(scans[j].dir_name@) && load_failure(scans[j]) is None
                && 0 <= k < scans[j].documents@.len() ==> built_content(scans).contains(
                #[trigger] doc_entries(scans[j].dir_name@, doc_views(scans[j].documents@))[k],
            ),
        forall|x: ContentEntryView| #[trigger] built_content(scans).contains(x) ==> exists|i: int|
            0 <= i < built_skills(scans).len() && x.domain == #[trigger] built_skills(scans)[i].name,
{
    broadcast use vstd::seq_lib::group_to_multiset_ensures;

    let prec = |a: LoadedView, b: LoadedView| named_before(a, b);
    lemma_loaded_distinct(scans);
    lemma_loaded_from(scans);
    let l = loaded(scans);
    let o = built_order(scans);
    lemma_sorted_by_elements(l, prec);
    crate::order::lemma_sorted_by_keys(l, prec, |x: LoadedView| x.meta.name);
    assert(loaded_distinct(o)) by {
        assert forall|i: int| 0 <= i < o.len() implies docs_distinct(#[trigger] o[i].docs) by {
            let k = choose|k: int| 0 <= k < l.len() && o[i] == l[k];
        }
    }
    lemma_add_all(o);
    let bs = built_skills(scans);
    assert forall|a: int, b: int|
        0 <= a < bs.len() && 0 <= b < bs.len() && a != b implies bs[a].name != bs[b].name by {
        assert(bs[a] == o[a].meta && bs[b] == o[b].meta);
    }
    assert forall|j: int, k: int|
        0 <= j < scans.len() && !is_hidden(scans[j].dir_name@) && load_failure(scans[j]) is None && 0
            <= k < scans[j].documents@.len() implies built_content(scans).contains(
        #[trigger] doc_entries(scans[j].dir_name@, doc_views(scans[j].documents@))[k],
    ) by {
        let x = loaded_of(scans[j]);
        assert(l.contains(x));
        assert(l.to_multiset().count(x) > 0);
        assert(o.to_multiset().count(x) > 0);
        assert(o.contains(x));
        let i = choose|i: int| 0 <= i < o.len() && o[i] == x;
        assert(x.meta.name == scans[j].dir_name@);
        assert(o[i].docs.len() == scans[j].documents@.len());
    }
    assert forall|x: ContentEntryView| #[trigger] built_content(scans).contains(x) implies exists|i: int|
        0 <= i < bs.len() && x.domain == #[trigger] bs[i].name by {
        let i = choose|i: int| 0 <= i < o.len() && x.domain == #[trigger] o[i].meta.name;
        assert(bs[i] == o[i].meta);
    }
}

/// On a scan of one directory, looking a loaded skill up by its directory's
/// name gives its manifest back unchanged: same tags, same sub-skills.
pub proof fn lemma_rebuild_round_trip_on_disk(scans: Seq<SkillDirScan>, j: int)
    requires
        dir_names_distinct(scans),
        forall|i: int| 0 <= i < scans.len() ==> docs_distinct(doc_views((#[trigger] scans[i]).documents@)),
        0 <= j < scans.len(),
        !is_hidden(scans[j].dir_name@),
        load_failure(scans[j]) is None,
    ensures
        named(built_skills(scans), scans[j].dir_name@) == Some(loaded_of(scans[j]).meta),
        scans[j].documents@.len() > 0 ==> built_content(scans).contains(
            doc_entries(scans[j].dir_name@, doc_views(scans[j].documents@))[0],
        ),
{
    lemma_rebuild_indexes_every_document(scans);
    lemma_rebuild_round_trip(scans, j);
}

proof fn lemma_without_name_count(s: Seq<SkillView>, name: Seq<char>, r: SkillView)
    requires
        r.name != name,
    ensures
        without_name(s, name).to_multiset().count(r) == s.to_multiset().count(r),
    decreases s.len(),
{
    broadcast use vstd::seq_lib::group_to_multiset_ensures;

    if s.len() > 0 {
        let d = s.drop_last();
        lemma_without_name_count(d, name, r);
        assert(s =~= d.push(s.last()));
        vstd::seq_lib::to_multiset_build(d, s.last());
        let prev = without_name(d, name);
        if s.last().name != name {
            vstd::seq_lib::to_multiset_build(prev, s.last());
        }
    } else {
        assert(s.to_multiset() =~= vstd::multiset::Multiset::empty());
        assert(without_name(s, name) =~= s);
    }
}

/// Updating skill `name` changes no other skill: each manifest of another
/// name is there as often as before, and each entry of another domain is
/// there exactly when it was before.
pub proof fn lemma_update_keeps_others(
    skills: Seq<SkillView>,
    entries: Seq<ContentEntryView>,
    name: Seq<char>,
    meta: SkillView,
    docs: Seq<DocView>,
)
    requires
        meta.name == name,
        crate::index::slots_unique(entries),
        docs_distinct(docs),
    ensures
        forall|r: SkillView|
            r.name != name ==> sorted_by(
                without_name(skills, name).push(meta),
                |a: SkillView, b: SkillView| meta_before(a, b),
            ).to_multiset().count(r) == #[trigger] skills.to_multiset().count(r),
        forall|x: ContentEntryView|
            x.domain != name ==> (#[trigger] add_docs(without_domain(entries, name), name, docs).contains(
                x,
            ) <==> entries.contains(x)),
{
    broadcast use vstd::seq_lib::group_to_multiset_ensures;

    let prec = |a: SkillView, b: SkillView| meta_before(a, b);
    let w = without_name(skills, name);
    lemma_sorted_by_elements(w.push(meta), prec);
    vstd::seq_lib::to_multiset_build(w, meta);
    assert forall|r: SkillView| r.name != name implies sorted_by(w.push(meta), prec).to_multiset().count(
        r,
    ) == #[trigger] skills.to_multiset().count(r) by {
        lemma_without_name_count(skills, name, r);
    }
    let c0 = without_domain(entries, name);
    crate::index::lemma_without_domain(entries, name);
    let es = doc_entries(name, docs);
    lemma_doc_entries_unique(name, docs);
    lemma_add_docs_as_entries(c0, name, docs);
    lemma_insert_all(c0, es);
    assert forall|x: ContentEntryView| x.domain != name implies (#[trigger] add_docs(c0, name, docs).contains(x)
        <==> entries.contains(x)) by {
        if entries.contains(x) {
            let j = choose|j: int| 0 <= j < entries.len() && entries[j] == x;
            assert(c0.contains(entries[j]));
            assert forall|k: int| 0 <= k < es.len() implies es[k].slot() != x.slot() by {
                assert(es.contains(es[k]));
            }
        }
        if add_docs(c0, name, docs).contains(x) {
            if es.contains(x) {
            } else {
                assert(c0.contains(x));
                let i = choose|i: int| 0 <= i < c0.len() && c0[i] == x;
                let j = choose|j: int| 0 <= j < entries.len() && c0[i] == #[trigger] entries[j];
            }
        }
    }
}

/// A skill whose manifest fails to load (an escaping sub-skill path, say)
/// leaves neither a manifest nor a content entry under its directory's name.
pub proof fn lemma_failed_skill_absent(scans: Seq<SkillDirScan>, j: int)
    requires
        dir_names_distinct(scans),
        forall|i: int| 0 <= i < scans.len() ==> docs_distinct(doc_views((#[trigger] scans[i]).documents@)),
        0 <= j < scans.len(),
        load_failure(scans[j]) is Some,
    ensures
        forall|i: int|
            0 <= i < built_skills(scans).len() ==> (#[trigger] built_skills(scans)[i]).name
                != scans[j].dir_name@,
        forall|x: ContentEntryView| #[trigger] built_content(scans).contains(x) ==> x.domain
            != scans[j].dir_name@,
{
    lemma_rebuild_sources(scans);
    lemma_rebuild_indexes_every_document(scans);
    let bs = built_skills(scans);
    assert forall|i: int| 0 <= i < bs.len() implies (#[trigger] bs[i]).name != scans[j].dir_name@ by {
        let k = choose|k: int|
            0 <= k < scans.len() && !is_hidden((#[trigger] scans[k]).dir_name@)
                && scans[k].manifest is Loaded && load_failure(scans[k]) is None && bs[i]
                == loaded_of(scans[k]).meta && bs[i].name == scans[k].dir_name@;
        if k != j {
            assert(scans[k].dir_name@ != scans[j].dir_name@);
        }
    }
    assert forall|x: ContentEntryView| #[trigger] built_content(scans).contains(x) implies x.domain
        != scans[j].dir_name@ by {
        let i = choose|i: int| 0 <= i < bs.len() && x.domain == #[trigger] bs[i].name;
    }
}

} // verus!
