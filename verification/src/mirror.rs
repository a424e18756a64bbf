//! The mirror policy: which file operation, if any, a single changed path
//! calls for.

use vstd::prelude::*;

use crate::paths::{is_html, is_templates, qualifies, report_counterpart};
use crate::text::replace_first_spec;

verus! {

/// One file copy to perform: a Templates-tree source and its Reports-tree
/// destination.
pub struct CopyTask {
    pub from: String,
    pub to: String,
}

/// A copy task as a pair of string views.
pub open spec fn task_view(t: CopyTask) -> (Seq<char>, Seq<char>) {
    (t.from@, t.to@)
}

/// The views of a sequence of copy tasks.
pub open spec fn task_views(s: Seq<CopyTask>) -> Seq<(Seq<char>, Seq<char>)> {
    s.map_values(|t: CopyTask| task_view(t))
}

/// The copy that mirrors `path` into the Reports tree.  `None` exactly when
/// the path does not qualify: a non-qualifying path touches no file.
pub fn clone_to_reports(path: &str) -> (r: Option<CopyTask>)
    ensures
        r is Some <==> qualifies(path@),
        match r {
            Some(t) => t.from@ == path@ && t.to@ == replace_first_spec(
                path@,
                "Templates"@,
                "Reports"@,
            ),
            None => true,
        },
{
    if is_templates(path) && is_html(path) {
        let to = report_counterpart(path);
        Some(CopyTask { from: path.to_owned(), to })
    } else {
        None
    }
}

/// The Reports-tree counterpart to delete when `path` is removed.  `None`
/// exactly when the path does not qualify: a non-qualifying path touches no
/// file.
pub fn remove_cloned_report(path: &str) -> (r: Option<String>)
    ensures
        r is Some <==> qualifies(path@),
        match r {
            Some(t) => t@ == replace_first_spec(path@, "Templates"@, "Reports"@),
            None => true,
        },
{
    if is_templates(path) && is_html(path) {
        Some(report_counterpart(path))
    } else {
        None
    }
}

} // verus!
