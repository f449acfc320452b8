//! Skill manifest records.

use vstd::prelude::*;

verus! {

/// One sub-skill entry of a manifest.
#[derive(Debug)]
pub struct SubSkillMeta {
    /// Sub-skill identifier, unique within its parent.
    pub name: String,
    /// Path of the sub-skill document, relative to the skill directory.
    pub file: String,
    /// Keywords for search discovery.
    pub triggers: Vec<String>,
}

/// The manifest of one skill.
#[derive(Debug)]
pub struct SkillMeta {
    /// Skill identifier: lowercase alphanumeric with inner hyphens.
    pub name: String,
    /// What the skill provides.
    pub description: String,
    /// Search tags.
    pub tags: Vec<String>,
    /// Nested sub-skills, for router skills.
    pub sub_skills: Option<Vec<SubSkillMeta>>,
    /// Origin indicator.
    pub source: Option<String>,
}

/// The characters of each string of a list.
pub open spec fn strs(v: Seq<String>) -> Seq<Seq<char>> {
    v.map_values(|s: String| s@)
}

/// What a sub-skill entry holds.
pub struct SubSkillView {
    pub name: Seq<char>,
    pub file: Seq<char>,
    pub triggers: Seq<Seq<char>>,
}

/// What a manifest holds.
pub struct SkillView {
    pub name: Seq<char>,
    pub description: Seq<char>,
    pub tags: Seq<Seq<char>>,
    pub sub_skills: Option<Seq<SubSkillView>>,
    pub source: Option<Seq<char>>,
}

impl View for SubSkillMeta {
    type V = SubSkillView;

    open spec fn view(&self) -> SubSkillView {
        SubSkillView { name: self.name@, file: self.file@, triggers: strs(self.triggers@) }
    }
}

/// The views of a list of sub-skill entries.
pub open spec fn sub_views(v: Seq<SubSkillMeta>) -> Seq<SubSkillView> {
    v.map_values(|s: SubSkillMeta| s@)
}

impl View for SkillMeta {
    type V = SkillView;

    open spec fn view(&self) -> SkillView {
        SkillView {
            name: self.name@,
            description: self.description@,
            tags: strs(self.tags@),
            sub_skills: match self.sub_skills {
                Some(v) => Some(sub_views(v@)),
                None => None,
            },
            source: match self.source {
                Some(s) => Some(s@),
                None => None,
            },
        }
    }
}

/// Whether the list holds the string.
pub fn holds_string(v: &Vec<String>, s: &String) -> (r: bool)
    ensures
        r == strs(v@).contains(s@),
{
    let mut i: usize = 0;
    while i < v.len()
        invariant
            i <= v@.len(),
            forall|j: int| 0 <= j < i ==> v@[j]@ != s@,
        decreases v@.len() - i,
    {
        if v[i] == *s {
            proof {
                assert(strs(v@)[i as int] == s@);
            }
            return true;
        }
        i = i + 1;
    }
    proof {
        if strs(v@).contains(s@) {
            let j = choose|j: int| 0 <= j < strs(v@).len() && strs(v@)[j] == s@;
            assert(v@[j]@ == s@);
        }
    }
    false
}

/// Copies a list of strings, keeping each one.
pub fn copy_strings(v: &Vec<String>) -> (r: Vec<String>)
    ensures
        r@ == v@,
{
    let mut out: Vec<String> = Vec::new();
    let mut i: usize = 0;
    while i < v.len()
        invariant
            i <= v@.len(),
            out@ == v@.subrange(0, i as int),
        decreases v@.len() - i,
    {
        out.push(v[i].clone());
        proof {
            assert(out@ =~= v@.subrange(0, i + 1));
        }
        i = i + 1;
    }
    proof {
        assert(v@.subrange(0, i as int) =~= v@);
    }
    out
}

impl Clone for SubSkillMeta {
    fn clone(&self) -> (r: Self)
        ensures
            r@ == self@,
    {
        SubSkillMeta {
            name: self.name.clone(),
            file: self.file.clone(),
            triggers: copy_strings(&self.triggers),
        }
    }
}

/// Copies a list of sub-skill entries.
pub fn copy_sub_skills(v: &Vec<SubSkillMeta>) -> (r: Vec<SubSkillMeta>)
    ensures
        sub_views(r@) == sub_views(v@),
{
    let mut out: Vec<SubSkillMeta> = Vec::new();
    let mut i: usize = 0;
    while i < v.len()
        invariant
            i <= v@.len(),
            out@.len() == i,
            sub_views(out@) == sub_views(v@.subrange(0, i as int)),
        decreases v@.len() - i,
    {
        let ghost before = out@;
        let c = v[i].clone();
        out.push(c);
        proof {
            let lhs = sub_views(out@);
            let rhs = sub_views(v@.subrange(0, i + 1));
            assert forall|j: int| 0 <= j < i + 1 implies lhs[j] == rhs[j] by {
                if j < i {
                    assert(out@[j] == before[j]);
                    assert(sub_views(before)[j] == before[j]@);
                    assert(sub_views(v@.subrange(0, i as int))[j] == v@[j]@);
                }
            }
            assert(lhs =~= rhs);
        }
        i = i + 1;
    }
    proof {
        assert(v@.subrange(0, i as int) =~= v@);
    }
    out
}

impl Clone for SkillMeta {
    fn clone(&self) -> (r: Self)
        ensures
            r@ == self@,
    {
        let sub_skills = match &self.sub_skills {
            Some(v) => Some(copy_sub_skills(v)),
            None => None,
        };
        let source = match &self.source {
            Some(s) => Some(s.clone()),
            None => None,
        };
        SkillMeta {
            name: self.name.clone(),
            description: self.description.clone(),
            tags: copy_strings(&self.tags),
            sub_skills,
            source,
        }
    }
}

/// The triggers of a list of sub-skills, in order.
pub open spec fn triggers_of(subs: Seq<SubSkillMeta>) -> Seq<String>
    decreases subs.len(),
{
    if subs.len() == 0 {
        seq![]
    } else {
        triggers_of(subs.drop_last()) + subs.last().triggers@
    }
}

impl SkillMeta {
    /// The sub-skill entries, none when the manifest lists none.
    pub open spec fn subs(self) -> Seq<SubSkillMeta> {
        match self.sub_skills {
            Some(v) => v@,
            None => seq![],
        }
    }

    /// Whether the skill has at least one sub-skill (is a router skill).
    pub fn has_sub_skills(&self) -> (r: bool)
        ensures
            r == (self.subs().len() > 0),
    {
        match &self.sub_skills {
            Some(v) => v.len() > 0,
            None => false,
        }
    }

    /// The names of the sub-skills, in manifest order.
    pub fn sub_skill_names(&self) -> (r: Vec<String>)
        ensures
            r@.len() == self.subs().len(),
            forall|i: int| 0 <= i < r@.len() ==> r@[i] == self.subs()[i].name,
            strs(r@) == sub_views(self.subs()).map_values(|x: SubSkillView| x.name),
    {
        let mut out: Vec<String> = Vec::new();
        match &self.sub_skills {
            Some(v) => {
                let mut i: usize = 0;
                while i < v.len()
                    invariant
                        i <= v@.len(),
                        v@ == self.subs(),
                        out@.len() == i,
                        forall|k: int| 0 <= k < i ==> out@[k] == v@[k].name,
                    decreases v@.len() - i,
                {
                    out.push(v[i].name.clone());
                    i = i + 1;
                }
            },
            None => {},
        }
        proof {
            let lhs = strs(out@);
            let rhs = sub_views(self.subs()).map_values(|x: SubSkillView| x.name);
            assert forall|k: int| 0 <= k < lhs.len() implies lhs[k] == rhs[k] by {
                assert(sub_views(self.subs())[k] == self.subs()[k]@);
            }
            assert(lhs =~= rhs);
        }
        out
    }

    /// The first sub-skill with the given name.
    pub fn find_sub_skill(&self, name: &str) -> (r: Option<&SubSkillMeta>)
        ensures
            r matches Some(s) ==> exists|i: int|
                0 <= i < self.subs().len() && self.subs()[i] == *s && s.name@ == name@ && forall|
                    j: int,
                | 0 <= j < i ==> self.subs()[j].name@ != name@,
            r is None ==> forall|i: int|
                0 <= i < self.subs().len() ==> self.subs()[i].name@ != name@,
    {
        let target = name.to_owned();
        match &self.sub_skills {
            Some(v) => {
                let mut i: usize = 0;
                while i < v.len()
                    invariant
                        i <= v@.len(),
                        v@ == self.subs(),
                        target@ == name@,
                        forall|j: int| 0 <= j < i ==> v@[j].name@ != name@,
                    decreases v@.len() - i,
                {
                    if v[i].name == target {
                        return Some(&v[i]);
                    }
                    i = i + 1;
                }
                None
            },
            None => None,
        }
    }

    /// All trigger words: the tags, then each sub-skill's triggers.
    pub fn all_triggers(&self) -> (r: Vec<String>)
        ensures
            r@ == self.tags@ + triggers_of(self.subs()),
    {
        let mut out = copy_strings(&self.tags);
        match &self.sub_skills {
            Some(v) => {
                let mut i: usize = 0;
                proof {
                    assert(v@.subrange(0, 0) =~= Seq::<SubSkillMeta>::empty());
                    assert(out@ =~= self.tags@ + triggers_of(v@.subrange(0, 0)));
                }
                while i < v.len()
                    invariant
                        i <= v@.len(),
                        out@ == self.tags@ + triggers_of(v@.subrange(0, i as int)),
                    decreases v@.len() - i,
                {
                    let ghost before = out@;
                    let t = &v[i].triggers;
                    let mut k: usize = 0;
                    while k < t.len()
                        invariant
                            k <= t@.len(),
                            out@ == before + t@.subrange(0, k as int),
                        decreases t@.len() - k,
                    {
                        out.push(t[k].clone());
                        proof {
                            assert(out@ =~= before + t@.subrange(0, k + 1));
                        }
                        k = k + 1;
                    }
                    proof {
                        assert(v@.subrange(0, i + 1).drop_last() =~= v@.subrange(0, i as int));
                        assert(t@.subrange(0, k as int) =~= t@);
                        assert(out@ =~= self.tags@ + triggers_of(v@.subrange(0, i + 1)));
                    }
                    i = i + 1;
                }
                proof {
                    assert(v@.subrange(0, i as int) =~= v@);
                }
            },
            None => {
                proof {
                    assert(out@ =~= self.tags@ + triggers_of(self.subs()));
                }
            },
        }
        out
    }
}

} // verus!
