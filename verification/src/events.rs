//! The event pipeline's decisions: what a single filesystem notification
//! asks the mirror and the link rewriter to do.

use vstd::prelude::*;

use crate::mirror::{clone_to_reports, remove_cloned_report, task_views, CopyTask};
use crate::paths::qualifies;
use crate::text::{replace_first_spec, seq_views};

verus! {

/// The kind of a raw filesystem notification.
pub enum FileEventKind {
    Created,
    Removed,
    Other,
}

/// Everything one event asks for: copies into the Reports tree, deletions
/// out of it, and whether the navigation page must be regenerated
/// afterwards (once per event, not once per path).
pub struct EventPlan {
    pub copies: Vec<CopyTask>,
    pub removals: Vec<String>,
    pub refresh_links: bool,
}

/// The mirror copies that a list of created paths calls for: one per
/// qualifying path, in order.
pub open spec fn copy_tasks(paths: Seq<Seq<char>>) -> Seq<(Seq<char>, Seq<char>)>
    decreases paths.len(),
{
    if paths.len() == 0 {
        Seq::empty()
    } else {
        let rest = copy_tasks(paths.drop_last());
        if qualifies(paths.last()) {
            rest.push(
                (paths.last(), replace_first_spec(paths.last(), "Templates"@, "Reports"@)),
            )
        } else {
            rest
        }
    }
}

/// The Reports-tree deletions that a list of removed paths calls for: one
/// counterpart per qualifying path, in order.
pub open spec fn remove_targets(paths: Seq<Seq<char>>) -> Seq<Seq<char>>
    decreases paths.len(),
{
    if paths.len() == 0 {
        Seq::empty()
    } else {
        let rest = remove_targets(paths.drop_last());
        if qualifies(paths.last()) {
            rest.push(replace_first_spec(paths.last(), "Templates"@, "Reports"@))
        } else {
            rest
        }
    }
}

/// The copies that mirror a created event's paths.
pub fn handle_file_created(paths: &Vec<String>) -> (r: Vec<CopyTask>)
    ensures
        task_views(r@) == copy_tasks(seq_views(paths@)),
{
    let ghost vs = seq_views(paths@);
    let mut out: Vec<CopyTask> = Vec::new();
    let mut i: usize = 0;
    while i < paths.len()
        invariant
            i <= paths.len(),
            vs == seq_views(paths@),
            task_views(out@) == copy_tasks(vs.take(i as int)),
        decreases paths.len() - i,
    {
        proof {
            assert(vs.take(i + 1).drop_last() =~= vs.take(i as int));
            assert(vs.take(i + 1).last() == paths@[i as int]@);
        }
        match clone_to_reports(paths[i].as_str()) {
            Some(t) => {
                out.push(t);
                proof {
                    assert(task_views(out@) =~= copy_tasks(vs.take(i + 1)));
                }
            },
            None => {
                proof {
                    assert(task_views(out@) =~= copy_tasks(vs.take(i + 1)));
                }
            },
        }
        i = i + 1;
    }
    proof {
        assert(vs.take(paths@.len() as int) =~= vs);
    }
    out
}

/// The deletions that mirror a removed event's paths.
pub fn handle_file_removed(paths: &Vec<String>) -> (r: Vec<String>)
    ensures
        seq_views(r@) == remove_targets(seq_views(paths@)),
{
    let ghost vs = seq_views(paths@);
    let mut out: Vec<String> = Vec::new();
    let mut i: usize = 0;
    while i < paths.len()
        invariant
            i <= paths.len(),
            vs == seq_views(paths@),
            seq_views(out@) == remove_targets(vs.take(i as int)),
        decreases paths.len() - i,
    {
        proof {
            assert(vs.take(i + 1).drop_last() =~= vs.take(i as int));
            assert(vs.take(i + 1).last() == paths@[i as int]@);
        }
        match remove_cloned_report(paths[i].as_str()) {
            Some(t) => {
                out.push(t);
                proof {
                    assert(seq_views(out@) =~= remove_targets(vs.take(i + 1)));
                }
            },
            None => {
                proof {
                    assert(seq_views(out@) =~= remove_targets(vs.take(i + 1)));
                }
            },
        }
        i = i + 1;
    }
    proof {
        assert(vs.take(paths@.len() as int) =~= vs);
    }
    out
}

/// What one event asks for.  A created event yields copies, a removed event
/// yields deletions, and each of the two asks for one link regeneration;
/// any other kind is ignored outright.
pub fn plan_event(kind: &FileEventKind, paths: &Vec<String>) -> (p: EventPlan)
    ensures
        match kind {
            FileEventKind::Created => task_views(p.copies@) == copy_tasks(seq_views(paths@))
                && p.removals@.len() == 0 && p.refresh_links,
            FileEventKind::Removed => seq_views(p.removals@) == remove_targets(seq_views(paths@))
                && p.copies@.len() == 0 && p.refresh_links,
            FileEventKind::Other => p.copies@.len() == 0 && p.removals@.len() == 0
                && !p.refresh_links,
        },
{
    match kind {
        FileEventKind::Created => EventPlan {
            copies: handle_file_created(paths),
            removals: Vec::new(),
            refresh_links: true,
        },
        FileEventKind::Removed => EventPlan {
            copies: Vec::new(),
            removals: handle_file_removed(paths),
            refresh_links: true,
        },
        FileEventKind::Other => EventPlan { copies: Vec::new(), removals: Vec::new(), refresh_links: false },
    }
}

} // verus!
