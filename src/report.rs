//! Validation of the indexed skills against the files on disk.

use vstd::prelude::*;
use vstd::string::StringExecFns;
use crate::index::SkillIndex;
use crate::meta::{SkillMeta, SkillView, strs};
use crate::search::subs_of;
use crate::store::prefixed;
use crate::validation::{meta_messages, validate_meta};

verus! {

/// The outcome of validating skills.
#[derive(Debug)]
pub struct ValidationResult {
    /// No error was found.
    pub valid: bool,
    /// Problems that must be fixed.
    pub errors: Vec<String>,
    /// Problems that may be left.
    pub warnings: Vec<String>,
    /// How many skills were checked.
    pub skills_checked: usize,
}

impl ValidationResult {
    /// A result without problems.
    pub fn pass(skills_checked: usize) -> (r: Self)
        ensures
            r.valid,
            r.errors@.len() == 0,
            r.warnings@.len() == 0,
            r.skills_checked == skills_checked,
    {
        ValidationResult { valid: true, errors: Vec::new(), warnings: Vec::new(), skills_checked }
    }

    /// A failed result with the given errors.
    pub fn fail(errors: Vec<String>, skills_checked: usize) -> (r: Self)
        ensures
            !r.valid,
            r.errors == errors,
            r.warnings@.len() == 0,
            r.skills_checked == skills_checked,
    {
        ValidationResult { valid: false, errors, warnings: Vec::new(), skills_checked }
    }

    /// Records an error; the result is then invalid.
    pub fn add_error(&mut self, error: String)
        ensures
            final(self).errors@ == old(self).errors@.push(error),
            final(self).warnings == old(self).warnings,
            final(self).skills_checked == old(self).skills_checked,
            !final(self).valid,
    {
        self.errors.push(error);
        self.valid = false;
    }

    /// Records a warning.
    pub fn add_warning(&mut self, warning: String)
        ensures
            final(self).warnings@ == old(self).warnings@.push(warning),
            final(self).errors == old(self).errors,
            final(self).skills_checked == old(self).skills_checked,
            final(self).valid == old(self).valid,
    {
        self.warnings.push(warning);
    }

    /// Takes in another result's problems and count.
    pub fn merge(&mut self, other: ValidationResult)
        requires
            old(self).skills_checked + other.skills_checked <= usize::MAX,
        ensures
            final(self).errors@ == old(self).errors@ + other.errors@,
            final(self).warnings@ == old(self).warnings@ + other.warnings@,
            final(self).skills_checked == old(self).skills_checked + other.skills_checked,
            final(self).valid == (old(self).valid && final(self).errors@.len() == 0),
    {
        let mut other = other;
        self.errors.append(&mut other.errors);
        self.warnings.append(&mut other.warnings);
        self.skills_checked = self.skills_checked + other.skills_checked;
        self.valid = self.valid && self.errors.len() == 0;
    }
}

/// Whether a skill's primary document is there, and whether it is empty.
#[derive(Debug, Clone, Copy, PartialEq, Eq, Structural)]
pub enum FileState {
    Missing,
    Empty,
    Present,
}

/// What the disk shows of one skill's files.
#[derive(Debug)]
pub struct SkillFiles {
    /// The primary document.
    pub skill_md: FileState,
    /// Sub-skill paths of the manifest that do not exist.
    pub missing_sub_files: Vec<String>,
    /// Subdirectories of the skill directory that hold a primary document
    /// of their own.
    pub subdirs_with_skill_md: Vec<String>,
}

/// The errors that checking one skill finds.
pub open spec fn skill_errors(m: SkillView, f: SkillFiles) -> Seq<Seq<char>> {
    prefixed(m.name, meta_messages(m)) + (if f.skill_md == FileState::Missing {
        seq![m.name + ": Missing SKILL.md"@]
    } else {
        seq![]
    }) + missing_messages(m.name, subs_of(m), strs(f.missing_sub_files@))
}

/// One error for each sub-skill whose file is missing, in manifest order.
pub open spec fn missing_messages(
    name: Seq<char>,
    subs: Seq<crate::meta::SubSkillView>,
    missing: Seq<Seq<char>>,
) -> Seq<Seq<char>>
    decreases subs.len(),
{
    if subs.len() == 0 {
        seq![]
    } else {
        let prev = missing_messages(name, subs.drop_last(), missing);
        if missing.contains(subs.last().file) {
            prev.push(name + ": Sub-skill file not found: "@ + subs.last().file)
        } else {
            prev
        }
    }
}

/// A subdirectory that can hold a sub-skill: not hidden, not `references`.
pub open spec fn candidate_dir(d: Seq<char>) -> bool {
    !(d.len() > 0 && d[0] == '.') && d != "references"@
}

/// One warning for each candidate subdirectory whose primary document no
/// sub-skill entry names.
pub open spec fn orphan_messages(
    name: Seq<char>,
    files: Seq<Seq<char>>,
    dirs: Seq<Seq<char>>,
) -> Seq<Seq<char>>
    decreases dirs.len(),
{
    if dirs.len() == 0 {
        seq![]
    } else {
        let prev = orphan_messages(name, files, dirs.drop_last());
        let rel = dirs.last() + "/SKILL.md"@;
        if candidate_dir(dirs.last()) && !files.contains(rel) {
            prev.push(name + ": Unreferenced sub-skill file: "@ + rel)
        } else {
            prev
        }
    }
}

/// The files the sub-skill entries name.
pub open spec fn sub_files(m: SkillView) -> Seq<Seq<char>> {
    subs_of(m).map_values(|x: crate::meta::SubSkillView| x.file)
}

/// The warnings that checking one skill finds.
pub open spec fn skill_warnings(m: SkillView, f: SkillFiles) -> Seq<Seq<char>> {
    (if f.skill_md == FileState::Empty {
        seq![m.name + ": SKILL.md is empty"@]
    } else {
        seq![]
    }) + orphan_messages(m.name, sub_files(m), strs(f.subdirs_with_skill_md@)) + (if m.tags.len()
        == 0 && m.sub_skills is None {
        seq![m.name + ": No tags or sub_skills defined (reduces discoverability)"@]
    } else {
        seq![]
    })
}

fn push_all(out: &mut Vec<String>, items: Vec<String>)
    ensures
        strs(final(out)@) == strs(old(out)@) + strs(items@),
{
    let mut items = items;
    let ghost a = out@;
    let ghost b = items@;
    out.append(&mut items);
    proof {
        assert(strs(out@) =~= strs(a) + strs(b));
    }
}

fn candidate(d: &String) -> (r: bool)
    ensures
        r == candidate_dir(d@),
{
    let c = crate::text::chars_of(d.as_str());
    let refs = String::from_str("references");
    !(c.len() > 0 && c[0] == '.') && *d != refs
}

/// Checks one skill: its manifest, its primary document, its sub-skill
/// files, the subdirectories no entry names, and its discoverability.
pub fn validate_skill(skill: &SkillMeta, files: &SkillFiles, result: &mut ValidationResult)
    ensures
        strs(final(result).errors@) == strs(old(result).errors@) + skill_errors(skill@, *files),
        strs(final(result).warnings@) == strs(old(result).warnings@) + skill_warnings(
            skill@,
            *files,
        ),
        final(result).skills_checked == old(result).skills_checked,
        final(result).valid == (old(result).valid && skill_errors(skill@, *files).len() == 0),
{
    let ghost e0 = strs(result.errors@);
    let ghost w0 = strs(result.warnings@);
    let ghost v0 = result.valid;
    let prefix = skill.name.clone().concat(": ");
    let mut errs: Vec<String> = Vec::new();
    match validate_meta(skill) {
        Ok(()) => {},
        Err(msgs) => {
            let mut k: usize = 0;
            while k < msgs.len()
                invariant
                    k <= msgs@.len(),
                    prefix@ == skill@.name + ": "@,
                    strs(errs@) == prefixed(skill@.name, strs(msgs@).subrange(0, k as int)),
                decreases msgs@.len() - k,
            {
                let ghost before = strs(errs@);
                let line = prefix.clone().concat(msgs[k].as_str());
                errs.push(line);
                proof {
                    assert(strs(msgs@)[k as int] == msgs@[k as int]@);
                    assert(strs(errs@) =~= before.push(line@));
                    assert(prefixed(skill@.name, strs(msgs@).subrange(0, k + 1)) =~= prefixed(
                        skill@.name,
                        strs(msgs@).subrange(0, k as int),
                    ).push(skill@.name + ": "@ + strs(msgs@)[k as int]));
                }
                k = k + 1;
            }
            proof {
                assert(strs(msgs@).subrange(0, k as int) =~= strs(msgs@));
            }
        },
    }
    proof {
        if meta_messages(skill@).len() == 0 {
            assert(strs(errs@) =~= prefixed(skill@.name, meta_messages(skill@)));
        }
    }
    let ghost after_meta = strs(errs@);
    if files.skill_md == FileState::Missing {
        let line = prefix.clone().concat("Missing SKILL.md");
        errs.push(line);
        proof {
            reveal_strlit(": ");
            reveal_strlit("Missing SKILL.md");
            reveal_strlit(": Missing SKILL.md");
            assert(line@ =~= skill@.name + ": Missing SKILL.md"@);
            assert(strs(errs@) =~= after_meta.push(line@));
            assert(strs(errs@) =~= after_meta + seq![skill@.name + ": Missing SKILL.md"@]);
        }
    } else {
        proof {
            assert(strs(errs@) =~= after_meta + Seq::<Seq<char>>::empty());
        }
    }
    let ghost after_md = strs(errs@);
    match &skill.sub_skills {
        None => {
            proof {
                assert(strs(errs@) =~= after_md + missing_messages(
                    skill@.name,
                    subs_of(skill@),
                    strs(files.missing_sub_files@),
                ));
            }
        },
        Some(subs) => {
            let ghost sv = subs_of(skill@);
            let mut i: usize = 0;
            proof {
                assert(sv == crate::meta::sub_views(subs@));
                assert(sv.subrange(0, 0) =~= Seq::<crate::meta::SubSkillView>::empty());
                assert(strs(errs@) =~= after_md + missing_messages(
                    skill@.name,
                    sv.subrange(0, 0),
                    strs(files.missing_sub_files@),
                ));
            }
            while i < subs.len()
                invariant
                    i <= subs@.len(),
                    sv == crate::meta::sub_views(subs@),
                    prefix@ == skill@.name + ": "@,
                    strs(errs@) == after_md + missing_messages(
                        skill@.name,
                        sv.subrange(0, i as int),
                        strs(files.missing_sub_files@),
                    ),
                decreases subs@.len() - i,
            {
                proof {
                    assert(sv.subrange(0, i + 1).drop_last() =~= sv.subrange(0, i as int));
                    assert(sv[i as int] == subs@[i as int]@);
                }
                if crate::meta::holds_string(&files.missing_sub_files, &subs[i].file) {
                    let ghost before = strs(errs@);
                    let line = prefix.clone().concat("Sub-skill file not found: ").concat(
                        subs[i].file.as_str(),
                    );
                    errs.push(line);
                    proof {
                        reveal_strlit(": ");
                        reveal_strlit("Sub-skill file not found: ");
                        reveal_strlit(": Sub-skill file not found: ");
                        assert(line@ =~= skill@.name + ": Sub-skill file not found: "@ + subs@[i as int].file@);
                        assert(strs(errs@) =~= before.push(line@));
                    }
                }
                i = i + 1;
            }
            proof {
                assert(sv.subrange(0, i as int) =~= sv);
            }
        },
    }
    proof {
        assert(strs(errs@) =~= skill_errors(skill@, *files));
    }
    let mut warns: Vec<String> = Vec::new();
    if files.skill_md == FileState::Empty {
        let line = prefix.clone().concat("SKILL.md is empty");
        warns.push(line);
        proof {
            assert(strs(warns@) =~= seq![line@]);
            reveal_strlit(": ");
            reveal_strlit("SKILL.md is empty");
            reveal_strlit(": SKILL.md is empty");
            assert(line@ =~= skill@.name + ": SKILL.md is empty"@);
        }
    }
    let ghost w_md = strs(warns@);
    proof {
        assert(w_md =~= (if files.skill_md == FileState::Empty {
            seq![skill@.name + ": SKILL.md is empty"@]
        } else {
            seq![]
        }));
    }
    let mut referenced: Vec<String> = Vec::new();
    match &skill.sub_skills {
        Some(subs) => {
            let mut i: usize = 0;
            while i < subs.len()
                invariant
                    i <= subs@.len(),
                    skill.sub_skills == Some(*subs),
                    strs(referenced@) == sub_files(skill@).subrange(0, i as int),
                decreases subs@.len() - i,
            {
                let ghost before = strs(referenced@);
                let f = subs[i].file.clone();
                referenced.push(f);
                proof {
                    assert(strs(referenced@) =~= before.push(f@));
                    assert(subs_of(skill@) == crate::meta::sub_views(subs@));
                    assert(crate::meta::sub_views(subs@)[i as int] == subs@[i as int]@);
                    assert(sub_files(skill@)[i as int] == subs@[i as int].file@);
                    assert(strs(referenced@) =~= sub_files(skill@).subrange(0, i + 1));
                }
                i = i + 1;
            }
            proof {
                assert(sub_files(skill@).subrange(0, i as int) =~= sub_files(skill@));
            }
        },
        None => {
            proof {
                assert(strs(referenced@) =~= sub_files(skill@));
            }
        },
    }
    let dirs = &files.subdirs_with_skill_md;
    let ghost dv = strs(dirs@);
    let mut j: usize = 0;
    proof {
        assert(dv.subrange(0, 0) =~= Seq::<Seq<char>>::empty());
        assert(strs(warns@) =~= w_md + orphan_messages(skill@.name, sub_files(skill@), dv.subrange(0, 0)));
    }
    while j < dirs.len()
        invariant
            j <= dirs@.len(),
            dv == strs(dirs@),
            prefix@ == skill@.name + ": "@,
            strs(referenced@) == sub_files(skill@),
            strs(warns@) == w_md + orphan_messages(skill@.name, sub_files(skill@), dv.subrange(0, j as int)),
        decreases dirs@.len() - j,
    {
        proof {
            assert(dv.subrange(0, j + 1).drop_last() =~= dv.subrange(0, j as int));
            assert(dv[j as int] == dirs@[j as int]@);
        }
        let d = &dirs[j];
        let rel = d.clone().concat("/SKILL.md");
        if candidate(d) && !crate::meta::holds_string(&referenced, &rel) {
            let ghost before = strs(warns@);
            let line = prefix.clone().concat("Unreferenced sub-skill file: ").concat(rel.as_str());
            warns.push(line);
            proof {
                reveal_strlit(": ");
                reveal_strlit("Unreferenced sub-skill file: ");
                reveal_strlit(": Unreferenced sub-skill file: ");
                assert(line@ =~= skill@.name + ": Unreferenced sub-skill file: "@ + rel@);
                assert(strs(warns@) =~= before.push(line@));
            }
        }
        j = j + 1;
    }
    proof {
        assert(dv.subrange(0, j as int) =~= dv);
    }
    let ghost w_orph = strs(warns@);
    if skill.tags.len() == 0 && skill.sub_skills.is_none() {
        let line = prefix.clone().concat("No tags or sub_skills defined (reduces discoverability)");
        warns.push(line);
        proof {
            assert(strs(warns@) =~= w_orph.push(line@));
            reveal_strlit(": ");
            reveal_strlit("No tags or sub_skills defined (reduces discoverability)");
            reveal_strlit(": No tags or sub_skills defined (reduces discoverability)");
            assert(line@ =~= skill@.name + ": No tags or sub_skills defined (reduces discoverability)"@);
            assert(strs(warns@) =~= w_orph.push(
                skill@.name + ": No tags or sub_skills defined (reduces discoverability)"@,
            ));
        }
    }
    proof {
        assert(strs(warns@) =~= skill_warnings(skill@, *files));
    }
    let had_errors = errs.len() > 0;
    push_all(&mut result.errors, errs);
    push_all(&mut result.warnings, warns);
    if had_errors {
        result.valid = false;
    }
}

/// The errors of every skill, skill by skill.
pub open spec fn all_errors(skills: Seq<SkillMeta>, files: Seq<SkillFiles>) -> Seq<Seq<char>>
    decreases skills.len(),
{
    if skills.len() == 0 || files.len() < skills.len() {
        seq![]
    } else {
        all_errors(skills.drop_last(), files) + skill_errors(
            skills.last()@,
            files[skills.len() - 1],
        )
    }
}

/// The warnings of every skill, skill by skill.
pub open spec fn all_warnings(skills: Seq<SkillMeta>, files: Seq<SkillFiles>) -> Seq<Seq<char>>
    decreases skills.len(),
{
    if skills.len() == 0 || files.len() < skills.len() {
        seq![]
    } else {
        all_warnings(skills.drop_last(), files) + skill_warnings(
            skills.last()@,
            files[skills.len() - 1],
        )
    }
}

/// Checks every skill of the index, with the index's own problems as errors
/// first.
pub fn validate_all(index: &SkillIndex, files: &Vec<SkillFiles>) -> (r: ValidationResult)
    requires
        files@.len() == index.skills@.len(),
    ensures
        r.skills_checked == index.skills@.len(),
        strs(r.errors@) == strs(index.validation_errors@) + all_errors(index.skills@, files@),
        strs(r.warnings@) == all_warnings(index.skills@, files@),
        r.valid == (strs(r.errors@).len() == 0),
{
    let mut result = ValidationResult::pass(index.skills.len());
    let mut k: usize = 0;
    proof {
        assert(strs(result.errors@) =~= strs(index.validation_errors@).subrange(0, 0));
    }
    while k < index.validation_errors.len()
        invariant
            k <= index.validation_errors@.len(),
            result.skills_checked == index.skills@.len(),
            result.valid == (k == 0),
            result.warnings@.len() == 0,
            strs(result.errors@) == strs(index.validation_errors@).subrange(0, k as int),
        decreases index.validation_errors@.len() - k,
    {
        let ghost before = strs(result.errors@);
        let e = index.validation_errors[k].clone();
        result.add_error(e);
        proof {
            assert(strs(result.errors@) =~= before.push(e@));
            assert(strs(index.validation_errors@)[k as int] == index.validation_errors@[k as int]@);
            assert(strs(result.errors@) =~= strs(index.validation_errors@).subrange(0, k + 1));
        }
        k = k + 1;
    }
    let ghost head = strs(index.validation_errors@);
    proof {
        assert(head.subrange(0, k as int) =~= head);
        assert(index.skills@.subrange(0, 0) =~= Seq::<SkillMeta>::empty());
        assert(strs(result.errors@) =~= head + all_errors(index.skills@.subrange(0, 0), files@));
        assert(strs(result.warnings@) =~= all_warnings(index.skills@.subrange(0, 0), files@));
    }
    let mut i: usize = 0;
    while i < index.skills.len()
        invariant
            i <= index.skills@.len(),
            files@.len() == index.skills@.len(),
            result.skills_checked == index.skills@.len(),
            strs(result.errors@) == head + all_errors(index.skills@.subrange(0, i as int), files@),
            strs(result.warnings@) == all_warnings(index.skills@.subrange(0, i as int), files@),
            result.valid == (strs(result.errors@).len() == 0),
        decreases index.skills@.len() - i,
    {
        proof {
            let sub = index.skills@.subrange(0, i + 1);
            assert(sub.drop_last() =~= index.skills@.subrange(0, i as int));
            assert(sub.last() == index.skills@[i as int]);
        }
        validate_skill(&index.skills[i], &files[i], &mut result);
        i = i + 1;
    }
    proof {
        assert(index.skills@.subrange(0, i as int) =~= index.skills@);
    }
    result
}

} // verus!
