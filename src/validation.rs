//! Manifest validation.

use vstd::prelude::*;
use vstd::string::StringExecFns;
use crate::meta::{SkillMeta, SkillView, SubSkillMeta, SubSkillView, strs, sub_views};

verus! {

/// A lowercase ASCII letter or an ASCII digit.
pub open spec fn is_name_char(c: char) -> bool {
    ('a' <= c && c <= 'z') || ('0' <= c && c <= '9')
}

/// One name character, or name characters at both ends with name characters
/// and hyphens between them.
pub open spec fn is_skill_name(s: Seq<char>) -> bool {
    (s.len() == 1 && is_name_char(s[0])) || (s.len() >= 2 && is_name_char(s[0]) && is_name_char(
        s.last(),
    ) && forall|i: int| 1 <= i < s.len() - 1 ==> (is_name_char(s[i]) || s[i] == '-'))
}

/// Relies on `regex::Regex::new` and `Regex::is_match` for the pattern
/// `^[a-z0-9][a-z0-9-]*[a-z0-9]$|^[a-z0-9]$`, which compiles, and whose anchors
/// match only at the ends of the haystack.
#[verifier::external_body]
fn matches_name_pattern(name: &str) -> (r: bool)
    ensures
        r == is_skill_name(name@),
{
    regex::Regex::new(r"^[a-z0-9][a-z0-9-]*[a-z0-9]$|^[a-z0-9]$").unwrap().is_match(name)
}

/// Longest accepted skill name, in characters.
pub const MAX_NAME_LEN: usize = 50;

/// The decimal digit for `d < 10`.
pub open spec fn digit(d: nat) -> char {
    ((48 + d) as u8) as char
}

/// Decimal notation of `n`.
pub open spec fn decimal(n: nat) -> Seq<char>
    decreases n,
{
    if n < 10 {
        seq![digit(n)]
    } else {
        decimal(n / 10).push(digit(n % 10))
    }
}

/// Writes `n` in decimal.
pub fn decimal_string(n: u64) -> (r: String)
    ensures
        r@ == decimal(n as nat),
    decreases n,
{
    let d = (48 + (n % 10) as u8) as char;
    let mut v: Vec<char> = Vec::new();
    v.push(d);
    let last = crate::text::string_of(&v);
    proof {
        assert(last@ =~= seq![digit((n % 10) as nat)]);
    }
    if n < 10 {
        last
    } else {
        let head = decimal_string(n / 10);
        let r = head.concat(last.as_str());
        proof {
            assert(r@ =~= decimal((n / 10) as nat).push(digit((n % 10) as nat)));
        }
        r
    }
}

pub open spec fn quoted(prefix: Seq<char>, s: Seq<char>) -> Seq<char> {
    prefix + s + "'"@
}

/// The messages about the name and the description.
pub open spec fn head_messages(m: SkillView) -> Seq<Seq<char>> {
    let format_msg: Seq<Seq<char>> = if is_skill_name(m.name) {
        seq![]
    } else {
        seq![quoted("name: must be lowercase alphanumeric with hyphens, got '"@, m.name)]
    };
    let len_msg: Seq<Seq<char>> = if m.name.len() == 0 {
        seq!["name: cannot be empty"@]
    } else if m.name.len() > MAX_NAME_LEN {
        seq!["name: must be 50 characters or less, got "@ + decimal(m.name.len())]
    } else {
        seq![]
    };
    let desc_msg: Seq<Seq<char>> = if m.description.len() == 0 {
        seq!["description: cannot be empty"@]
    } else {
        seq![]
    };
    format_msg + len_msg + desc_msg
}

/// Ends with `.md`.
pub open spec fn has_md_ext(s: Seq<char>) -> bool {
    s.len() >= 3 && s.subrange(s.len() - 3, s.len() as int) == ".md"@
}

/// The messages about sub-skill `i`.
pub open spec fn entry_messages(i: nat, sub: SubSkillView) -> Seq<Seq<char>> {
    let at = "sub_skills["@ + decimal(i);
    let name_msg: Seq<Seq<char>> = if sub.name.len() == 0 {
        seq![at + "].name: cannot be empty"@]
    } else {
        seq![]
    };
    let file_msg: Seq<Seq<char>> = if sub.file.len() == 0 {
        seq![at + "].file: cannot be empty"@]
    } else if !has_md_ext(sub.file) {
        seq![quoted(at + "].file: must end with .md, got '"@, sub.file)]
    } else {
        seq![]
    };
    name_msg + file_msg
}

/// The messages about each sub-skill entry, in order.
pub open spec fn entries_messages(subs: Seq<SubSkillView>) -> Seq<Seq<char>>
    decreases subs.len(),
{
    if subs.len() == 0 {
        seq![]
    } else {
        entries_messages(subs.drop_last()) + entry_messages(
            (subs.len() - 1) as nat,
            subs.last(),
        )
    }
}

/// A name that an earlier entry already has.
pub open spec fn repeats_name(subs: Seq<SubSkillView>, i: int) -> bool {
    exists|j: int| 0 <= j < i && subs[j].name == subs[i].name
}

/// One message for each entry whose name an earlier entry already has.
pub open spec fn duplicate_messages(subs: Seq<SubSkillView>) -> Seq<Seq<char>>
    decreases subs.len(),
{
    if subs.len() == 0 {
        seq![]
    } else {
        let rest = duplicate_messages(subs.drop_last());
        if repeats_name(subs, subs.len() - 1) {
            rest.push(quoted("sub_skills: duplicate name '"@, subs.last().name))
        } else {
            rest
        }
    }
}

/// Every problem found in a manifest, as messages, in the order they are checked.
pub open spec fn meta_messages(m: SkillView) -> Seq<Seq<char>> {
    match m.sub_skills {
        Some(subs) => head_messages(m) + entries_messages(subs) + duplicate_messages(subs),
        None => head_messages(m),
    }
}

fn text(s: &str) -> (r: String)
    ensures
        r@ == s@,
{
    String::from_str(s)
}

fn ends_with_md(s: &String) -> (r: bool)
    ensures
        r == has_md_ext(s@),
{
    let v = crate::text::chars_of(s.as_str());
    let n = v.len();
    if n < 3 {
        return false;
    }
    let ext = crate::text::chars_of(".md");
    proof {
        reveal_strlit(".md");
    }
    let r = crate::text::matches_at(&v, &ext, n - 3);
    proof {
        assert(s@.subrange(n - 3, n as int) == v@.subrange(n - 3, n - 3 + ext@.len()));
    }
    r
}

/// Checks name format, name length, description, and each sub-skill entry.
pub fn validate_meta(meta: &SkillMeta) -> (r: Result<(), Vec<String>>)
    ensures
        r is Ok <==> meta_messages(meta@).len() == 0,
        r matches Err(v) ==> strs(v@) == meta_messages(meta@),
{
    let mut errors: Vec<String> = Vec::new();
    let name_len = crate::text::chars_of(meta.name.as_str()).len();
    if !matches_name_pattern(meta.name.as_str()) {
        let m = text("name: must be lowercase alphanumeric with hyphens, got '").concat(
            meta.name.as_str(),
        ).concat("'");
        errors.push(m);
    }
    if name_len == 0 {
        errors.push(text("name: cannot be empty"));
    } else if name_len > MAX_NAME_LEN {
        let m = text("name: must be 50 characters or less, got ").concat(
            decimal_string(name_len as u64).as_str(),
        );
        errors.push(m);
    }
    if meta.description.as_str().is_empty() {
        errors.push(text("description: cannot be empty"));
    }
    proof {
        assert(strs(errors@) =~= head_messages(meta@));
    }
    match &meta.sub_skills {
        None => {},
        Some(subs) => {
            let ghost views = sub_views(subs@);
            let ghost head = strs(errors@);
            let mut i: usize = 0;
            proof {
                assert(views.subrange(0, 0) =~= Seq::<SubSkillView>::empty());
                assert(strs(errors@) =~= head + entries_messages(views.subrange(0, 0)));
            }
            while i < subs.len()
                invariant
                    i <= subs@.len(),
                    views == sub_views(subs@),
                    strs(errors@) == head + entries_messages(views.subrange(0, i as int)),
                decreases subs@.len() - i,
            {
                let sub = &subs[i];
                let ghost before = strs(errors@);
                let at = text("sub_skills[").concat(decimal_string(i as u64).as_str());
                if sub.name.as_str().is_empty() {
                    errors.push(at.clone().concat("].name: cannot be empty"));
                }
                if sub.file.as_str().is_empty() {
                    errors.push(at.concat("].file: cannot be empty"));
                } else if !ends_with_md(&sub.file) {
                    let m = at.concat("].file: must end with .md, got '").concat(
                        sub.file.as_str(),
                    ).concat("'");
                    errors.push(m);
                }
                proof {
                    assert(views[i as int] == sub@);
                    assert(views.subrange(0, i + 1).drop_last() =~= views.subrange(0, i as int));
                    assert(strs(errors@) =~= before + entry_messages(i as nat, sub@));
                    assert(strs(errors@) =~= head + entries_messages(views.subrange(0, i + 1)));
                }
                i = i + 1;
            }
            proof {
                assert(views.subrange(0, i as int) =~= views);
            }
            let ghost mid = strs(errors@);
            let mut k: usize = 0;
            proof {
                assert(strs(errors@) =~= mid + duplicate_messages(views.subrange(0, 0)));
            }
            while k < subs.len()
                invariant
                    k <= subs@.len(),
                    views == sub_views(subs@),
                    strs(errors@) == mid + duplicate_messages(views.subrange(0, k as int)),
                decreases subs@.len() - k,
            {
                let ghost pre = views.subrange(0, k + 1);
                let mut j: usize = 0;
                let mut seen = false;
                while j < k
                    invariant
                        j <= k < subs@.len(),
                        views == sub_views(subs@),
                        seen == exists|x: int| 0 <= x < j && views[x].name == views[k as int].name,
                    decreases k - j,
                {
                    proof {
                        assert(views[j as int] == subs@[j as int]@);
                        assert(views[k as int] == subs@[k as int]@);
                    }
                    if subs[j].name == subs[k].name {
                        seen = true;
                    }
                    j = j + 1;
                }
                let ghost before = strs(errors@);
                proof {
                    assert(pre.drop_last() =~= views.subrange(0, k as int));
                    assert(seen == repeats_name(pre, k as int)) by {
                        if seen {
                            let x = choose|x: int| 0 <= x < j && views[x].name == views[k as int].name;
                            assert(pre[x] == views[x]);
                        }
                        if repeats_name(pre, k as int) {
                            let x = choose|x: int| 0 <= x < k && pre[x].name == pre[k as int].name;
                            assert(pre[x] == views[x]);
                        }
                    }
                    assert(views[k as int] == subs@[k as int]@);
                }
                if seen {
                    let m = text("sub_skills: duplicate name '").concat(
                        subs[k].name.as_str(),
                    ).concat("'");
                    errors.push(m);
                    proof {
                        assert(strs(errors@) =~= before.push(
                            quoted("sub_skills: duplicate name '"@, pre.last().name),
                        ));
                    }
                }
                k = k + 1;
            }
            proof {
                assert(views.subrange(0, k as int) =~= views);
            }
        },
    }
    if errors.len() == 0 {
        Ok(())
    } else {
        Err(errors)
    }
}

} // verus!
