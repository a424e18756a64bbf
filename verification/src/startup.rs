//! The startup reconciliation: the plan that brings an arbitrary root
//! directory to the state the rest of the system relies on.

use vstd::prelude::*;

use crate::events::{copy_tasks, handle_file_created};
use crate::mirror::{task_views, CopyTask};
use crate::paths::qualifies;
use crate::text::{replace_first_spec, seq_views};

verus! {

/// How the navigation page is to be seeded.
pub enum IndexAction {
    /// The page already exists: leave it.
    Keep,
    /// Restore it from the backup kept under Resources.
    RestoreBackup,
    /// Write the built-in placeholder document.
    WritePlaceholder,
}

/// Everything the startup pass performs, in order: create the missing
/// required directories, seed the navigation page, clear the Reports tree,
/// and rebuild it from the Templates tree.  Link regeneration follows
/// unconditionally.
pub struct StartupPlan {
    pub create_templates: bool,
    pub create_resources: bool,
    pub create_reports: bool,
    pub index_action: IndexAction,
    /// Every entry directly under Reports, all of them to delete.
    pub removals: Vec<String>,
    /// One copy per qualifying Templates entry, rebuilding the mirror.
    pub copies: Vec<CopyTask>,
}

/// The startup plan for the observed state of the root directory: which of
/// the three required subdirectories are missing, whether the navigation
/// page and its backup exist, and the entries of the Reports and Templates
/// directories.
pub fn startup(
    templates_exists: bool,
    resources_exists: bool,
    reports_exists: bool,
    index_exists: bool,
    backup_exists: bool,
    reports_entries: &Vec<String>,
    templates_entries: &Vec<String>,
) -> (p: StartupPlan)
    ensures
        p.create_templates == !templates_exists,
        p.create_resources == !resources_exists,
        p.create_reports == !reports_exists,
        p.index_action == (if index_exists {
            IndexAction::Keep
        } else if backup_exists {
            IndexAction::RestoreBackup
        } else {
            IndexAction::WritePlaceholder
        }),
        p.removals@ == reports_entries@,
        task_views(p.copies@) == copy_tasks(seq_views(templates_entries@)),
{
    let mut removals: Vec<String> = Vec::new();
    let mut i: usize = 0;
    while i < reports_entries.len()
        invariant
            i <= reports_entries.len(),
            removals@ == reports_entries@.take(i as int),
        decreases reports_entries.len() - i,
    {
        removals.push(reports_entries[i].clone());
        proof {
            assert(removals@ =~= reports_entries@.take(i + 1));
        }
        i = i + 1;
    }
    proof {
        assert(reports_entries@.take(reports_entries@.len() as int) =~= reports_entries@);
    }
    StartupPlan {
        create_templates: !templates_exists,
        create_resources: !resources_exists,
        create_reports: !reports_exists,
        index_action: if index_exists {
            IndexAction::Keep
        } else if backup_exists {
            IndexAction::RestoreBackup
        } else {
            IndexAction::WritePlaceholder
        },
        removals,
        copies: handle_file_created(templates_entries),
    }
}

/// A model of carrying the plan's copies out, in order, on a cleared
/// Reports tree: each copy sets its destination path to the content its
/// source has in the Templates tree.
pub open spec fn apply_copies(
    reports: Map<Seq<char>, Seq<char>>,
    tasks: Seq<(Seq<char>, Seq<char>)>,
    content: Map<Seq<char>, Seq<char>>,
) -> Map<Seq<char>, Seq<char>>
    decreases tasks.len(),
{
    if tasks.len() == 0 {
        reports
    } else {
        apply_copies(reports, tasks.drop_last(), content).insert(
            tasks.last().1,
            content[tasks.last().0],
        )
    }
}

/// The Reports tree that the startup copies rebuild out of the Templates
/// listing `paths`, whose file contents `content` gives.
pub open spec fn rebuilt_reports(
    paths: Seq<Seq<char>>,
    content: Map<Seq<char>, Seq<char>>,
) -> Map<Seq<char>, Seq<char>> {
    apply_copies(Map::empty(), copy_tasks(paths), content)
}

/// Mirror consistency: once the startup copies have run on a cleared
/// Reports tree, every qualifying Templates file has exactly one Reports
/// counterpart, under the counterpart path and with the same content, and
/// nothing else is in the tree.  Distinct qualifying paths must map to
/// distinct counterparts, which holds whenever the literal `Templates`
/// appears only as the tree's own segment.
pub proof fn lemma_mirror_consistency(paths: Seq<Seq<char>>, content: Map<Seq<char>, Seq<char>>)
    requires
        forall|i: int, j: int|
            0 <= i < j < paths.len() && qualifies(#[trigger] paths[i]) && qualifies(
                #[trigger] paths[j],
            ) ==> replace_first_spec(paths[i], "Templates"@, "Reports"@) != replace_first_spec(
                paths[j],
                "Templates"@,
                "Reports"@,
            ),
    ensures
        forall|i: int|
            0 <= i < paths.len() && qualifies(#[trigger] paths[i]) ==> rebuilt_reports(
                paths,
                content,
            ).contains_pair(
                replace_first_spec(paths[i], "Templates"@, "Reports"@),
                content[paths[i]],
            ),
        forall|k: Seq<char>|
            rebuilt_reports(paths, content).dom().contains(k) ==> exists|i: int|
                0 <= i < paths.len() && qualifies(#[trigger] paths[i]) && replace_first_spec(
                    paths[i],
                    "Templates"@,
                    "Reports"@,
                ) == k,
    decreases paths.len(),
{
    if paths.len() == 0 {
        assert(rebuilt_reports(paths, content) =~= Map::<Seq<char>, Seq<char>>::empty());
        assert(Map::<Seq<char>, Seq<char>>::empty().dom() =~= Set::<Seq<char>>::empty());
    } else {
        let rest = paths.drop_last();
        lemma_mirror_consistency(rest, content);
        let ts = copy_tasks(paths);
        let rts = copy_tasks(rest);
        if qualifies(paths.last()) {
            assert(ts == rts.push(
                (paths.last(), replace_first_spec(paths.last(), "Templates"@, "Reports"@)),
            ));
            assert(ts.drop_last() =~= rts);
            assert(rebuilt_reports(paths, content) == rebuilt_reports(rest, content).insert(
                replace_first_spec(paths.last(), "Templates"@, "Reports"@),
                content[paths.last()],
            ));
            assert forall|i: int|
                0 <= i < paths.len() && qualifies(#[trigger] paths[i]) implies rebuilt_reports(
                paths,
                content,
            ).contains_pair(
                replace_first_spec(paths[i], "Templates"@, "Reports"@),
                content[paths[i]],
            ) by {
                if i < paths.len() - 1 {
                    assert(rest[i] == paths[i]);
                    assert(replace_first_spec(paths[i], "Templates"@, "Reports"@)
                        != replace_first_spec(paths.last(), "Templates"@, "Reports"@));
                }
            }
            assert forall|k: Seq<char>|
                rebuilt_reports(paths, content).dom().contains(k) implies exists|i: int|
                0 <= i < paths.len() && qualifies(#[trigger] paths[i]) && replace_first_spec(
                    paths[i],
                    "Templates"@,
                    "Reports"@,
                ) == k by {
                if k == replace_first_spec(paths.last(), "Templates"@, "Reports"@) {
                    assert(qualifies(paths[paths.len() - 1]));
                } else {
                    assert(rebuilt_reports(rest, content).dom().contains(k));
                    let i = choose|i: int|
                        0 <= i < rest.len() && qualifies(#[trigger] rest[i]) && replace_first_spec(
                            rest[i],
                            "Templates"@,
                            "Reports"@,
                        ) == k;
                    assert(paths[i] == rest[i]);
                    assert(qualifies(paths[i]));
                }
            }
        } else {
            assert(ts == rts);
            assert(rebuilt_reports(paths, content) == rebuilt_reports(rest, content));
            assert forall|i: int|
                0 <= i < paths.len() && qualifies(#[trigger] paths[i]) implies rebuilt_reports(
                paths,
                content,
            ).contains_pair(
                replace_first_spec(paths[i], "Templates"@, "Reports"@),
                content[paths[i]],
            ) by {
                assert(i < paths.len() - 1);
                assert(rest[i] == paths[i]);
            }
            assert forall|k: Seq<char>|
                rebuilt_reports(paths, content).dom().contains(k) implies exists|i: int|
                0 <= i < paths.len() && qualifies(#[trigger] paths[i]) && replace_first_spec(
                    paths[i],
                    "Templates"@,
                    "Reports"@,
                ) == k by {
                let i = choose|i: int|
                    0 <= i < rest.len() && qualifies(#[trigger] rest[i]) && replace_first_spec(
                        rest[i],
                        "Templates"@,
                        "Reports"@,
                    ) == k;
                assert(paths[i] == rest[i]);
                assert(qualifies(paths[i]));
            }
        }
    }
}

} // verus!
