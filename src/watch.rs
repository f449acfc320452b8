//! Decisions of the change watcher: which skills a batch of filesystem
//! changes touches, and whether to update them one by one or rebuild.

use vstd::prelude::*;
use crate::index::opt_str;

verus! {

/// The kind of a filesystem change notification.
#[derive(Debug, Clone, Copy, PartialEq, Eq, Structural)]
pub enum ChangeKind {
    Create,
    Modify,
    Remove,
    /// Access and other notifications, which change nothing.
    Other,
}

/// What to do about one notification.
#[derive(Debug)]
pub enum WatchAction {
    /// Nothing changed that matters.
    Ignore,
    /// No skill could be told apart: rebuild everything.
    Rebuild,
    /// Update each of these skills, in order.
    Update(Vec<String>),
}

/// The distinct skill names among the mapped paths, in order of first appearance.
pub open spec fn affected(names: Seq<Option<Seq<char>>>) -> Seq<Seq<char>>
    decreases names.len(),
{
    if names.len() == 0 {
        seq![]
    } else {
        let prev = affected(names.drop_last());
        match names.last() {
            Some(n) => if prev.contains(n) {
                prev
            } else {
                prev.push(n)
            },
            None => prev,
        }
    }
}

pub open spec fn opt_strs(v: Seq<Option<String>>) -> Seq<Option<Seq<char>>> {
    v.map_values(|o: Option<String>| opt_str(o))
}

/// Decides what a notification calls for, given the skill each of its
/// paths maps to (none for a path outside every skill).
pub fn plan_change(kind: ChangeKind, skills: &Vec<Option<String>>) -> (r: WatchAction)
    ensures
        kind == ChangeKind::Other ==> r is Ignore,
        kind != ChangeKind::Other && affected(opt_strs(skills@)).len() == 0 ==> r is Rebuild,
        kind != ChangeKind::Other && affected(opt_strs(skills@)).len() > 0 ==> (r matches WatchAction::Update(
            v,
        ) && crate::meta::strs(v@) == affected(opt_strs(skills@))),
{
    if kind == ChangeKind::Other {
        return WatchAction::Ignore;
    }
    let ghost sv = opt_strs(skills@);
    let mut out: Vec<String> = Vec::new();
    let mut i: usize = 0;
    proof {
        assert(sv.subrange(0, 0) =~= Seq::<Option<Seq<char>>>::empty());
        assert(crate::meta::strs(out@) =~= Seq::<Seq<char>>::empty());
    }
    while i < skills.len()
        invariant
            i <= skills@.len(),
            sv == opt_strs(skills@),
            crate::meta::strs(out@) == affected(sv.subrange(0, i as int)),
        decreases skills@.len() - i,
    {
        proof {
            assert(sv.subrange(0, i + 1).drop_last() =~= sv.subrange(0, i as int));
            assert(sv[i as int] == opt_str(skills@[i as int]));
        }
        match &skills[i] {
            Some(name) => {
                if !crate::meta::holds_string(&out, name) {
                    let ghost before = crate::meta::strs(out@);
                    out.push(name.clone());
                    proof {
                        assert(crate::meta::strs(out@) =~= before.push(name@));
                    }
                }
            },
            None => {},
        }
        i = i + 1;
    }
    proof {
        assert(sv.subrange(0, i as int) =~= sv);
    }
    if out.len() == 0 {
        WatchAction::Rebuild
    } else {
        WatchAction::Update(out)
    }
}

/// The next step of working through an update batch.
#[derive(Debug)]
pub enum WatchStep {
    /// Update this skill.
    Update(String),
    /// An update failed: rebuild everything and drop the rest of the batch.
    Rebuild,
    /// The batch is done.
    Done,
}

/// After `done` skills of the batch were updated, the last of them failing
/// or not, says what comes next.
pub fn next_step(names: &Vec<String>, done: usize, last_failed: bool) -> (r: WatchStep)
    ensures
        last_failed ==> r is Rebuild,
        !last_failed && done < names@.len() ==> (r matches WatchStep::Update(n) && n@
            == names@[done as int]@),
        !last_failed && done >= names@.len() ==> r is Done,
{
    if last_failed {
        WatchStep::Rebuild
    } else if done < names.len() {
        WatchStep::Update(names[done].clone())
    } else {
        WatchStep::Done
    }
}

} // verus!
