//! Classifying paths.  A path is held as a string; its segments are the runs
//! of characters between separators, its file name is the text after the
//! last separator, and its extension is the part of the file name after the
//! last dot, provided that dot is not the file name's first character.

use vstd::prelude::*;

use crate::text::{find_from, lemma_find_from, occurs_at, replace_first, replace_first_spec};

verus! {

/// Path separator: either direction, so that the same string classifies the
/// same way on either kind of path syntax.
pub open spec fn is_sep(c: char) -> bool {
    c == '/' || c == '\\'
}

/// `w` stands as a whole segment of `p` beginning at position `i`.
pub open spec fn seg_at(p: Seq<char>, w: Seq<char>, i: int) -> bool {
    &&& occurs_at(p, w, i)
    &&& (i == 0 || is_sep(p[i - 1]))
    &&& (i + w.len() == p.len() || is_sep(p[i + w.len()]))
}

/// Some segment of `p` equals `w`.
pub open spec fn has_segment(p: Seq<char>, w: Seq<char>) -> bool {
    exists|i: int| seg_at(p, w, i)
}

/// Start of the file name: the position right after the last separator, or
/// zero when the path has none.
pub open spec fn name_start(p: Seq<char>) -> int
    decreases p.len(),
{
    if p.len() == 0 {
        0
    } else if is_sep(p.last()) {
        p.len() as int
    } else {
        name_start(p.drop_last())
    }
}

pub proof fn lemma_name_start(p: Seq<char>)
    ensures
        0 <= name_start(p) <= p.len(),
        forall|m: int| name_start(p) <= m < p.len() ==> !is_sep(p[m]),
        name_start(p) > 0 ==> is_sep(p[name_start(p) - 1]),
    decreases p.len(),
{
    if p.len() == 0 {
    } else if is_sep(p.last()) {
    } else {
        lemma_name_start(p.drop_last());
        assert(forall|m: int| 0 <= m < p.len() - 1 ==> p.drop_last()[m] == p[m]);
    }
}

/// Index of the last dot of `n`, if any.
pub open spec fn last_dot(n: Seq<char>) -> Option<int>
    decreases n.len(),
{
    if n.len() == 0 {
        None
    } else if n.last() == '.' {
        Some(n.len() - 1)
    } else {
        last_dot(n.drop_last())
    }
}

/// The file name `n` without its extension.  A dot in first position does
/// not begin an extension.
pub open spec fn stem_of_name(n: Seq<char>) -> Seq<char> {
    match last_dot(n) {
        Some(d) => if d >= 1 {
            n.subrange(0, d)
        } else {
            n
        },
        None => n,
    }
}

/// The stem of the path's file name.
pub open spec fn stem_of(p: Seq<char>) -> Seq<char> {
    stem_of_name(p.subrange(name_start(p), p.len() as int))
}

/// The path's extension is exactly `html`: it ends in `.html` and the dot
/// neither follows a separator nor starts the file name.
pub open spec fn has_html_ext(p: Seq<char>) -> bool {
    &&& p.len() >= 6
    &&& p.subrange(p.len() - 5, p.len() as int) == ".html"@
    &&& !is_sep(p[p.len() - 6])
}

/// A path is mirrored between the trees iff it lies under Templates and
/// carries the `html` extension.
pub open spec fn qualifies(p: Seq<char>) -> bool {
    has_segment(p, "Templates"@) && has_html_ext(p)
}

/// Whether some whole segment of `path` equals `w`.
fn has_segment_str(path: &str, w: &str) -> (b: bool)
    requires
        w@.len() >= 1,
    ensures
        b == has_segment(path@, w@),
{
    let pl = path.unicode_len();
    let wl = w.unicode_len();
    let mut i: usize = 0;
    loop
        invariant
            pl == path@.len(),
            wl == w@.len(),
            wl >= 1,
            i <= pl,
            forall|j: int| 0 <= j < i ==> !seg_at(path@, w@, j),
        decreases pl - i,
    {
        if wl > pl - i {
            proof {
                assert forall|j: int| 0 <= j implies !seg_at(path@, w@, j) by {
                    if i <= j {
                        assert(j + w@.len() > path@.len());
                    }
                }
            }
            return false;
        }
        let start_ok = if i == 0 {
            true
        } else {
            let c = path.get_char(i - 1);
            c == '/' || c == '\\'
        };
        if start_ok && crate::text::matches_at(path, w, i, pl, wl) {
            let end_ok = if i + wl == pl {
                true
            } else {
                let c = path.get_char(i + wl);
                c == '/' || c == '\\'
            };
            if end_ok {
                assert(seg_at(path@, w@, i as int));
                return true;
            }
        }
        assert(!seg_at(path@, w@, i as int));
        i = i + 1;
    }
}

/// Some segment of the path equals `Templates`.
pub fn is_templates(path: &str) -> (b: bool)
    ensures
        b == has_segment(path@, "Templates"@),
{
    proof {
        reveal_strlit("Templates");
    }
    has_segment_str(path, "Templates")
}

/// Some segment of the path equals `Reports`.
pub fn is_reports(path: &str) -> (b: bool)
    ensures
        b == has_segment(path@, "Reports"@),
{
    proof {
        reveal_strlit("Reports");
    }
    has_segment_str(path, "Reports")
}

/// The path's extension is exactly `html`.
pub fn is_html(path: &str) -> (b: bool)
    ensures
        b == has_html_ext(path@),
{
    proof {
        reveal_strlit(".html");
    }
    let pl = path.unicode_len();
    if pl < 6 {
        return false;
    }
    let c = path.get_char(pl - 6);
    if c == '/' || c == '\\' {
        return false;
    }
    let tail_ok = path.get_char(pl - 5) == '.' && path.get_char(pl - 4) == 'h' && path.get_char(
        pl - 3,
    ) == 't' && path.get_char(pl - 2) == 'm' && path.get_char(pl - 1) == 'l';
    proof {
        if tail_ok {
            assert(path@.subrange(path@.len() - 5, path@.len() as int) =~= ".html"@);
        } else {
            assert(path@.subrange(path@.len() - 5, path@.len() as int) != ".html"@) by {
                if path@.subrange(path@.len() - 5, path@.len() as int) == ".html"@ {
                    assert(path@[path@.len() - 5] == ".html"@[0]);
                    assert(path@[path@.len() - 4] == ".html"@[1]);
                    assert(path@[path@.len() - 3] == ".html"@[2]);
                    assert(path@[path@.len() - 2] == ".html"@[3]);
                    assert(path@[path@.len() - 1] == ".html"@[4]);
                }
            }
        }
    }
    tail_ok
}

/// Start of the path's file name, as `name_start` gives it.
pub fn name_start_exec(path: &str) -> (r: usize)
    ensures
        r == name_start(path@),
{
    let pl = path.unicode_len();
    let mut j = pl;
    proof {
        assert(path@.subrange(0, pl as int) =~= path@);
    }
    loop
        invariant
            pl == path@.len(),
            j <= pl,
            name_start(path@) == name_start(path@.subrange(0, j as int)),
        decreases j,
    {
        if j == 0 {
            proof {
                assert(path@.subrange(0, 0) =~= Seq::<char>::empty());
            }
            return 0;
        }
        let c = path.get_char(j - 1);
        if c == '/' || c == '\\' {
            proof {
                let q = path@.subrange(0, j as int);
                assert(q.last() == path@[j - 1]);
            }
            return j;
        }
        proof {
            let q = path@.subrange(0, j as int);
            assert(q.last() == path@[j - 1]);
            assert(q.drop_last() =~= path@.subrange(0, j - 1));
        }
        j = j - 1;
    }
}

/// The stem of the path's file name: `None` when the file name is empty,
/// otherwise the name up to its last extension dot.
pub fn file_stem(path: &str) -> (r: Option<String>)
    ensures
        match r {
            Some(s) => name_start(path@) < path@.len() && s@ == stem_of(path@),
            None => name_start(path@) == path@.len(),
        },
{
    let pl = path.unicode_len();
    let ns = name_start_exec(path);
    proof {
        lemma_name_start(path@);
    }
    if ns == pl {
        return None;
    }
    // scan the file name from its end for the last dot
    let ghost name = path@.subrange(ns as int, pl as int);
    let mut j = pl;
    loop
        invariant
            pl == path@.len(),
            ns == name_start(path@),
            ns < pl,
            ns <= j <= pl,
            name == path@.subrange(ns as int, pl as int),
            last_dot(name) == last_dot(path@.subrange(ns as int, j as int)),
        decreases j,
    {
        if j == ns {
            proof {
                assert(path@.subrange(ns as int, ns as int) =~= Seq::<char>::empty());
            }
            // no dot: the stem is the whole name
            let s = path.substring_char(ns, pl);
            return Some(s.to_owned());
        }
        let c = path.get_char(j - 1);
        if c == '.' {
            proof {
                let q = path@.subrange(ns as int, j as int);
                assert(q.last() == path@[j - 1]);
                assert(last_dot(name) == Some(j - 1 - ns));
            }
            if j - 1 - ns >= 1 {
                let s = path.substring_char(ns, j - 1);
                proof {
                    assert(path@.subrange(ns as int, j - 1) =~= name.subrange(0, j - 1 - ns));
                }
                return Some(s.to_owned());
            } else {
                let s = path.substring_char(ns, pl);
                return Some(s.to_owned());
            }
        }
        proof {
            let q = path@.subrange(ns as int, j as int);
            assert(q.last() == path@[j - 1]);
            assert(q.drop_last() =~= path@.subrange(ns as int, j - 1));
        }
        j = j - 1;
    }
}

/// The Reports-tree counterpart of a Templates-tree path: the leftmost
/// occurrence of `Templates` in the path string becomes `Reports`.
pub fn report_counterpart(path: &str) -> (r: String)
    ensures
        r@ == replace_first_spec(path@, "Templates"@, "Reports"@),
{
    replace_first(path, "Templates", "Reports")
}

} // verus!
