//! Regenerating the navigation page's two link blocks.
//!
//! The page holds two delimited regions: the text of a region runs from the
//! first heading-close marker after a block-open marker to the next
//! block-close marker.  Regeneration renders one anchor line per qualifying
//! file, sorts the lines, and rewrites the page only when the freshly
//! rendered text differs from what the regions hold.

use vstd::multiset::Multiset;
use vstd::prelude::*;
use vstd::seq_lib::{lemma_multiset_commutative, lemma_sorted_unique};

use crate::order::{lemma_lex_total_ordering, lex_leq, sort_lines};
use crate::paths::{has_html_ext, is_html, is_sep, file_stem, lemma_name_start, name_start, stem_of};
use crate::text::{
    find_from, lemma_find_from, lemma_find_from_exact, lemma_find_from_none,
    lemma_occurs_at_common_prefix, lemma_replace_all_single_occurrence, occurs_at, replace_all,
    replace_all_spec, seq_views,
};

verus! {

/// The anchor-line template for the Templates region.
pub open spec fn template_line() -> Seq<char> {
    "\n        <a class=\"link-row\" href=\"Templates/tdoc.html\">tdoc</a>\n        "@
}

pub fn template_line_str() -> (r: &'static str)
    ensures
        r@ == template_line(),
{
    "\n        <a class=\"link-row\" href=\"Templates/tdoc.html\">tdoc</a>\n        "
}

/// The anchor-line template for the Reports region.
pub open spec fn report_line() -> Seq<char> {
    "\n        <a class=\"link-row\" href=\"Reports/rdoc.html\">rdoc</a>\n        "@
}

pub fn report_line_str() -> (r: &'static str)
    ensures
        r@ == report_line(),
{
    "\n        <a class=\"link-row\" href=\"Reports/rdoc.html\">rdoc</a>\n        "
}

/// The placeholder document written when no navigation page exists and no
/// backup is available.
pub open spec fn empty_index() -> Seq<char> {
    "\n        <html> <head> </head>\n        <body> <div> <span>\n        default index.html\n        </span> </div>\n        <div> <span>\n        please replace $IPATH/index.html with proper home page\n        </span> </div> </body> </html>\n        "@
}

pub fn empty_index_str() -> (r: &'static str)
    ensures
        r@ == empty_index(),
{
    "\n        <html> <head> </head>\n        <body> <div> <span>\n        default index.html\n        </span> </div>\n        <div> <span>\n        please replace $IPATH/index.html with proper home page\n        </span> </div> </body> </html>\n        "
}

/// The marker that opens a link block.
pub open spec fn block_open() -> Seq<char> {
    "<div class=\"link-block\">"@
}

fn block_open_str() -> (r: &'static str)
    ensures
        r@ == block_open(),
{
    "<div class=\"link-block\">"
}

/// The marker that closes the block's heading.
pub open spec fn h1_close() -> Seq<char> {
    "</h1>"@
}

fn h1_close_str() -> (r: &'static str)
    ensures
        r@ == h1_close(),
{
    "</h1>"
}

/// The marker that closes a link block.
pub open spec fn div_close() -> Seq<char> {
    "</div>"@
}

fn div_close_str() -> (r: &'static str)
    ensures
        r@ == div_close(),
{
    "</div>"
}

/// Link regeneration refuses to empty a region: the error names the tree
/// whose listing produced no links.
#[derive(Clone, Copy, Debug, PartialEq, Eq)]
pub enum LinkError {
    EmptyTemplates,
    EmptyReports,
}

impl LinkError {
    /// The wording the error carries to the user.
    pub fn message(&self) -> (r: &'static str)
        ensures
            *self is EmptyTemplates ==> r@ == "empty Templates"@,
            *self is EmptyReports ==> r@ == "empty Reports"@,
    {
        match self {
            LinkError::EmptyTemplates => "empty Templates",
            LinkError::EmptyReports => "empty Reports",
        }
    }
}

/// The region a single split piece yields: the text between the piece's
/// first heading-close marker and the next block-close marker, if both are
/// present.
pub open spec fn extract_region(piece: Seq<char>) -> Option<Seq<char>> {
    match find_from(piece, h1_close(), 0) {
        None => None,
        Some(a) => {
            let rest = piece.subrange(a + h1_close().len(), piece.len() as int);
            match find_from(rest, div_close(), 0) {
                None => None,
                Some(d) => Some(rest.subrange(0, d)),
            }
        },
    }
}

/// The first two extracted regions, in order, among the first two pieces
/// that follow the page's block-open markers.
pub open spec fn pair_regions(e0: Option<Seq<char>>, e1: Option<Seq<char>>) -> (
    Option<Seq<char>>,
    Option<Seq<char>>,
) {
    match (e0, e1) {
        (Some(a), Some(b)) => (Some(a), Some(b)),
        (Some(a), None) => (Some(a), None),
        (None, Some(b)) => (Some(b), None),
        (None, None) => (None, None),
    }
}

/// The text the page's two regions currently hold: the first component for
/// the Templates block, the second for the Reports block.
pub open spec fn current_regions(home: Seq<char>) -> (Option<Seq<char>>, Option<Seq<char>>) {
    match find_from(home, block_open(), 0) {
        None => (None, None),
        Some(o1) => {
            let s1 = o1 + block_open().len();
            match find_from(home, block_open(), s1) {
                None => pair_regions(
                    extract_region(home.subrange(s1, home.len() as int)),
                    None,
                ),
                Some(o2) => {
                    let s2 = o2 + block_open().len();
                    let p1 = home.subrange(s1, o2);
                    let p2 = match find_from(home, block_open(), s2) {
                        None => home.subrange(s2, home.len() as int),
                        Some(o3) => home.subrange(s2, o3),
                    };
                    pair_regions(extract_region(p1), extract_region(p2))
                },
            }
        },
    }
}

/// What the Templates region holds, or the built-in template line when the
/// page yields no such region.
pub open spec fn template_lines_of(home: Seq<char>) -> Seq<char> {
    match current_regions(home).0 {
        Some(t) => t,
        None => template_line(),
    }
}

/// What the Reports region holds, or the built-in report line when the
/// page yields no second region.
pub open spec fn report_lines_of(home: Seq<char>) -> Seq<char> {
    match current_regions(home).1 {
        Some(t) => t,
        None => report_line(),
    }
}

/// One rendered anchor line: the file's stem substituted for every
/// occurrence of the placeholder in the line template.
pub open spec fn render_line(line: Seq<char>, pat: Seq<char>, path: Seq<char>) -> Seq<char> {
    replace_all_spec(line, pat, stem_of(path))
}

/// The rendered lines of a directory listing: one per file with the `html`
/// extension, in listing order.
pub open spec fn render_lines(files: Seq<Seq<char>>, line: Seq<char>, pat: Seq<char>) -> Seq<
    Seq<char>,
>
    decreases files.len(),
{
    if files.len() == 0 {
        Seq::empty()
    } else {
        let rest = render_lines(files.drop_last(), line, pat);
        if has_html_ext(files.last()) {
            rest.push(render_line(line, pat, files.last()))
        } else {
            rest
        }
    }
}

/// All the members of `s`, concatenated in order.
pub open spec fn concat_all(s: Seq<Seq<char>>) -> Seq<char>
    decreases s.len(),
{
    if s.len() == 0 {
        Seq::empty()
    } else {
        concat_all(s.drop_last()) + s.last()
    }
}

/// The aggregate text of one region: the rendered lines of the listing,
/// sorted ascending, concatenated.
pub open spec fn aggregate(files: Seq<Seq<char>>, line: Seq<char>, pat: Seq<char>) -> Seq<char> {
    concat_all(render_lines(files, line, pat).sort_by(lex_leq()))
}

/// What link regeneration decides for a page and the two directory
/// listings: an error when either tree renders no links, no write when both
/// regions already hold the rendered text, and otherwise the rewritten
/// document, with each region's old text replaced by the new.
pub open spec fn update_links_spec(
    home: Seq<char>,
    tfiles: Seq<Seq<char>>,
    rfiles: Seq<Seq<char>>,
) -> Result<Option<Seq<char>>, LinkError> {
    let tl = template_lines_of(home);
    let rl = report_lines_of(home);
    let tn = aggregate(tfiles, template_line(), "tdoc"@);
    let rn = aggregate(rfiles, report_line(), "rdoc"@);
    if tn.len() == 0 {
        Err(LinkError::EmptyTemplates)
    } else if rn.len() == 0 {
        Err(LinkError::EmptyReports)
    } else if tn == tl && rl == rn {
        Ok(None)
    } else {
        Ok(Some(replace_all_spec(replace_all_spec(home, tl, tn), rl, rn)))
    }
}

/// The spec-level reading of the result `update_links` returns.
pub open spec fn result_view(r: Result<Option<String>, LinkError>) -> Result<
    Option<Seq<char>>,
    LinkError,
> {
    match r {
        Ok(None) => Ok(None),
        Ok(Some(s)) => Ok(Some(s@)),
        Err(e) => Err(e),
    }
}

/// The line template with the file's stem substituted for the placeholder,
/// or nothing when the path has no file name.
pub fn replace_with_stem(s: &str, p: &str, file: &str) -> (r: Option<String>)
    ensures
        match r {
            Some(x) => name_start(file@) < file@.len() && x@ == replace_all_spec(
                s@,
                p@,
                stem_of(file@),
            ),
            None => name_start(file@) == file@.len(),
        },
{
    match file_stem(file) {
        Some(stem) => Some(replace_all(s, p, stem.as_str())),
        None => None,
    }
}

/// A path with the `html` extension has a nonempty file name.
proof fn lemma_html_has_name(p: Seq<char>)
    requires
        has_html_ext(p),
    ensures
        name_start(p) < p.len(),
{
    reveal_strlit(".html");
    lemma_name_start(p);
    if name_start(p) == p.len() {
        assert(is_sep(p[p.len() - 1]));
        assert(p[p.len() - 1] == p.subrange(p.len() - 5, p.len() as int)[4]);
        assert(p.subrange(p.len() - 5, p.len() as int)[4] == ".html"@[4]);
    }
}

/// The rendered lines of a listing, in listing order.
fn render_lines_exec(files: &Vec<String>, line: &str, pat: &str) -> (r: Vec<String>)
    ensures
        seq_views(r@) == render_lines(seq_views(files@), line@, pat@),
{
    let ghost vs = seq_views(files@);
    let mut out: Vec<String> = Vec::new();
    let mut i: usize = 0;
    while i < files.len()
        invariant
            i <= files.len(),
            vs == seq_views(files@),
            seq_views(out@) == render_lines(vs.take(i as int), line@, pat@),
        decreases files.len() - i,
    {
        proof {
            assert(vs.take(i + 1).drop_last() =~= vs.take(i as int));
            assert(vs.take(i + 1).last() == files@[i as int]@);
        }
        if is_html(files[i].as_str()) {
            match file_stem(files[i].as_str()) {
                Some(stem) => {
                    out.push(replace_all(line, pat, stem.as_str()));
                    proof {
                        assert(seq_views(out@) =~= render_lines(vs.take(i + 1), line@, pat@));
                    }
                },
                None => {
                    proof {
                        lemma_html_has_name(files@[i as int]@);
                        assert(false);
                    }
                },
            }
        } else {
            proof {
                assert(seq_views(out@) =~= render_lines(vs.take(i + 1), line@, pat@));
            }
        }
        i = i + 1;
    }
    proof {
        assert(vs.take(files@.len() as int) =~= vs);
    }
    out
}

/// The aggregate text of one region, computed: rendered, sorted, joined.
fn aggregate_exec(files: &Vec<String>, line: &str, pat: &str) -> (r: String)
    ensures
        r@ == aggregate(seq_views(files@), line@, pat@),
{
    let lines = render_lines_exec(files, line, pat);
    let ghost rendered = render_lines(seq_views(files@), line@, pat@);
    let sorted = sort_lines(lines);
    let mut out = String::new();
    let mut i: usize = 0;
    while i < sorted.len()
        invariant
            i <= sorted.len(),
            seq_views(sorted@) == rendered.sort_by(lex_leq()),
            out@ == concat_all(seq_views(sorted@).take(i as int)),
        decreases sorted.len() - i,
    {
        out.append(sorted[i].as_str());
        proof {
            assert(seq_views(sorted@).take(i + 1).drop_last() =~= seq_views(sorted@).take(
                i as int,
            ));
            assert(seq_views(sorted@).take(i + 1).last() == sorted@[i as int]@);
        }
        i = i + 1;
    }
    proof {
        assert(seq_views(sorted@).take(sorted@.len() as int) =~= seq_views(sorted@));
    }
    out
}

/// The region a piece yields, computed.
fn extract_region_exec(piece: &str) -> (r: Option<String>)
    ensures
        match r {
            Some(s) => extract_region(piece@) == Some(s@),
            None => extract_region(piece@) is None,
        },
{
    proof {
        reveal_strlit("</h1>");
        reveal_strlit("</div>");
    }
    let pl = piece.unicode_len();
    let h1m = h1_close_str();
    let divm = div_close_str();
    match crate::text::find_str(piece, h1m, 0) {
        None => None,
        Some(a) => {
            proof {
                lemma_find_from(piece@, h1_close(), 0);
            }
            let rest = piece.substring_char(a + 5, pl);
            match crate::text::find_str(rest, divm, 0) {
                None => None,
                Some(d) => {
                    proof {
                        lemma_find_from(rest@, div_close(), 0);
                    }
                    Some(rest.substring_char(0, d).to_owned())
                },
            }
        },
    }
}

/// The text the page's two regions currently hold, computed.
fn current_regions_exec(home: &str) -> (r: (Option<String>, Option<String>))
    ensures
        match r.0 {
            Some(s) => current_regions(home@).0 == Some(s@),
            None => current_regions(home@).0 is None,
        },
        match r.1 {
            Some(s) => current_regions(home@).1 == Some(s@),
            None => current_regions(home@).1 is None,
        },
{
    proof {
        reveal_strlit("<div class=\"link-block\">");
    }
    let hl = home.unicode_len();
    let openm = block_open_str();
    let ol = openm.unicode_len();
    match crate::text::find_str(home, openm, 0) {
        None => (None, None),
        Some(o1) => {
            proof {
                lemma_find_from(home@, block_open(), 0);
            }
            let s1 = o1 + ol;
            match crate::text::find_str(home, openm, s1) {
                None => {
                    let p = home.substring_char(s1, hl);
                    let e0 = extract_region_exec(p);
                    match e0 {
                        Some(a) => (Some(a), None),
                        None => (None, None),
                    }
                },
                Some(o2) => {
                    proof {
                        lemma_find_from(home@, block_open(), s1 as int);
                    }
                    let s2 = o2 + ol;
                    let p1 = home.substring_char(s1, o2);
                    let p2 = match crate::text::find_str(home, openm, s2) {
                        None => home.substring_char(s2, hl),
                        Some(o3) => {
                            proof {
                                lemma_find_from(home@, block_open(), s2 as int);
                            }
                            home.substring_char(s2, o3)
                        },
                    };
                    let e0 = extract_region_exec(p1);
                    let e1 = extract_region_exec(p2);
                    match (e0, e1) {
                        (Some(a), Some(b)) => (Some(a), Some(b)),
                        (Some(a), None) => (Some(a), None),
                        (None, Some(b)) => (Some(b), None),
                        (None, None) => (None, None),
                    }
                },
            }
        },
    }
}

/// Regenerate the two link blocks.  `Err` exactly when a tree renders no
/// links (the empty-directory guard); `Ok(None)` exactly when both regions
/// already hold the rendered text, so nothing is to be written; otherwise
/// the rewritten document to write back.
pub fn update_links(
    home_page: &str,
    template_files: &Vec<String>,
    report_files: &Vec<String>,
) -> (r: Result<Option<String>, LinkError>)
    ensures
        result_view(r) == update_links_spec(
            home_page@,
            seq_views(template_files@),
            seq_views(report_files@),
        ),
        r == Err::<Option<String>, LinkError>(LinkError::EmptyTemplates) <==> aggregate(
            seq_views(template_files@),
            template_line(),
            "tdoc"@,
        ).len() == 0,
        r == Err::<Option<String>, LinkError>(LinkError::EmptyReports) <==> aggregate(
            seq_views(template_files@),
            template_line(),
            "tdoc"@,
        ).len() > 0 && aggregate(seq_views(report_files@), report_line(), "rdoc"@).len() == 0,
        r == Ok::<Option<String>, LinkError>(None) <==> ({
            let tn = aggregate(seq_views(template_files@), template_line(), "tdoc"@);
            let rn = aggregate(seq_views(report_files@), report_line(), "rdoc"@);
            tn.len() > 0 && rn.len() > 0 && tn == template_lines_of(home_page@)
                && report_lines_of(home_page@) == rn
        }),
{
    let t_agg = aggregate_exec(template_files, template_line_str(), "tdoc");
    let r_agg = aggregate_exec(report_files, report_line_str(), "rdoc");
    if t_agg.as_str().unicode_len() == 0 {
        return Err(LinkError::EmptyTemplates);
    }
    if r_agg.as_str().unicode_len() == 0 {
        return Err(LinkError::EmptyReports);
    }
    let (c0, c1) = current_regions_exec(home_page);
    let t_cur: String = match c0 {
        Some(s) => s,
        None => template_line_str().to_owned(),
    };
    let r_cur: String = match c1 {
        Some(s) => s,
        None => report_line_str().to_owned(),
    };
    if t_agg == t_cur && r_cur == r_agg {
        Ok(None)
    } else {
        let step = replace_all(home_page, t_cur.as_str(), t_agg.as_str());
        let out = replace_all(step.as_str(), r_cur.as_str(), r_agg.as_str());
        Ok(Some(out))
    }
}

/// `render_lines` distributes over concatenation of listings.
proof fn lemma_render_lines_add(
    a: Seq<Seq<char>>,
    b: Seq<Seq<char>>,
    line: Seq<char>,
    pat: Seq<char>,
)
    ensures
        render_lines(a + b, line, pat) == render_lines(a, line, pat) + render_lines(b, line, pat),
    decreases b.len(),
{
    if b.len() == 0 {
        assert(a + b =~= a);
        assert(render_lines(a, line, pat) + render_lines(b, line, pat) =~= render_lines(
            a,
            line,
            pat,
        ));
    } else {
        lemma_render_lines_add(a, b.drop_last(), line, pat);
        assert((a + b).drop_last() =~= a + b.drop_last());
        assert((a + b).last() == b.last());
        if has_html_ext(b.last()) {
            assert(render_lines(a + b, line, pat) =~= render_lines(a, line, pat) + render_lines(
                b,
                line,
                pat,
            ));
        } else {
            assert(render_lines(a + b, line, pat) =~= render_lines(a, line, pat) + render_lines(
                b,
                line,
                pat,
            ));
        }
    }
}

/// What one listed file contributes to the rendered lines.
proof fn lemma_render_lines_singleton(x: Seq<char>, line: Seq<char>, pat: Seq<char>)
    ensures
        render_lines(seq![x], line, pat) == if has_html_ext(x) {
            seq![render_line(line, pat, x)]
        } else {
            Seq::<Seq<char>>::empty()
        },
{
    let b = seq![x];
    assert(b.len() == 1);
    assert(b.last() == x);
    assert(b.drop_last() =~= Seq::<Seq<char>>::empty());
    assert(render_lines(b.drop_last(), line, pat) =~= Seq::<Seq<char>>::empty());
    if has_html_ext(x) {
        assert(render_lines(b, line, pat) == render_lines(b.drop_last(), line, pat).push(
            render_line(line, pat, x),
        ));
        assert(render_lines(b, line, pat) =~= seq![render_line(line, pat, x)]);
    }
}

/// Listings with the same files render the same multiset of lines.
proof fn lemma_render_lines_permutation(
    f1: Seq<Seq<char>>,
    f2: Seq<Seq<char>>,
    line: Seq<char>,
    pat: Seq<char>,
)
    requires
        f1.to_multiset() == f2.to_multiset(),
    ensures
        render_lines(f1, line, pat).to_multiset() == render_lines(f2, line, pat).to_multiset(),
    decreases f1.len(),
{
    broadcast use vstd::seq_lib::group_to_multiset_ensures;
    broadcast use vstd::multiset::group_multiset_axioms;

    if f1.len() == 0 {
        assert(f1.to_multiset().len() == 0);
        assert(f2.to_multiset().len() == f2.len());
        assert(f2.len() == 0);
    } else {
        let x = f1.last();
        assert(f1.drop_last().push(x) =~= f1);
        assert(f1.to_multiset() == f1.drop_last().to_multiset().insert(x));
        assert(f2.to_multiset().count(x) > 0);
        assert(f2.contains(x));
        let j = choose|j: int| 0 <= j < f2.len() && f2[j] == x;
        assert(f2.remove(j).to_multiset() == f2.to_multiset().remove(x));
        assert(f1.drop_last().to_multiset() =~= f1.to_multiset().remove(x));
        lemma_render_lines_permutation(f1.drop_last(), f2.remove(j), line, pat);
        // decompose f2 around position j
        let a = f2.subrange(0, j);
        let c = f2.subrange(j + 1, f2.len() as int);
        assert(f2 =~= (a + seq![x]) + c);
        assert(f2.remove(j) =~= a + c);
        lemma_render_lines_add(a + seq![x], c, line, pat);
        lemma_render_lines_add(a, seq![x], line, pat);
        lemma_render_lines_add(a, c, line, pat);
        lemma_render_lines_singleton(x, line, pat);
        let ra = render_lines(a, line, pat);
        let rc = render_lines(c, line, pat);
        let rs = render_lines(seq![x], line, pat);
        assert(render_lines(f2, line, pat) == (ra + rs) + rc);
        assert(render_lines(f2.remove(j), line, pat) == ra + rc);
        lemma_multiset_commutative(ra + rs, rc);
        lemma_multiset_commutative(ra, rs);
        lemma_multiset_commutative(ra, rc);
        assert(Seq::<Seq<char>>::empty().to_multiset() =~= Multiset::<Seq<char>>::empty()) by {
            assert forall|e: Seq<char>|
                #[trigger] Seq::<Seq<char>>::empty().to_multiset().count(e) == 0 by {
                assert(!Seq::<Seq<char>>::empty().contains(e));
            }
        }
        if has_html_ext(x) {
            let rl = render_line(line, pat, x);
            assert(rs =~= seq![rl]);
            assert(seq![rl] =~= Seq::<Seq<char>>::empty().push(rl));
            assert(rs.to_multiset() =~= Multiset::<Seq<char>>::empty().insert(rl));
            assert(render_lines(f1, line, pat) == render_lines(
                f1.drop_last(),
                line,
                pat,
            ).push(rl));
            assert(render_lines(f1, line, pat).to_multiset() =~= render_lines(
                f2,
                line,
                pat,
            ).to_multiset());
        } else {
            assert(rs.to_multiset() =~= Multiset::<Seq<char>>::empty());
            assert(render_lines(f1, line, pat) == render_lines(f1.drop_last(), line, pat));
            assert(render_lines(f1, line, pat).to_multiset() =~= render_lines(
                f2,
                line,
                pat,
            ).to_multiset());
        }
    }
}

/// Sort determinism: listings holding the same files, in whatever order
/// the directory hands them out, render byte-identical aggregate text.
pub proof fn lemma_sort_determinism(
    files1: Seq<Seq<char>>,
    files2: Seq<Seq<char>>,
    line: Seq<char>,
    pat: Seq<char>,
)
    requires
        files1.to_multiset() == files2.to_multiset(),
    ensures
        aggregate(files1, line, pat) == aggregate(files2, line, pat),
{
    lemma_render_lines_permutation(files1, files2, line, pat);
    lemma_lex_total_ordering();
    let r1 = render_lines(files1, line, pat);
    let r2 = render_lines(files2, line, pat);
    r1.lemma_sort_by_ensures(lex_leq());
    r2.lemma_sort_by_ensures(lex_leq());
    assert(r1.sort_by(lex_leq()).to_multiset() == r2.sort_by(lex_leq()).to_multiset());
    lemma_sorted_unique(r1.sort_by(lex_leq()), r2.sort_by(lex_leq()), lex_leq());
    assert(r1.sort_by(lex_leq()) == r2.sort_by(lex_leq()));
}

/// A page of the expected shape: a preamble, the first block with its
/// heading and region text, an interlude, the second block with its
/// heading and region text, and a trailer.
pub open spec fn shaped_page(
    pre: Seq<char>,
    head1: Seq<char>,
    c1: Seq<char>,
    mid: Seq<char>,
    head2: Seq<char>,
    c2: Seq<char>,
    tail: Seq<char>,
) -> Seq<char> {
    pre + block_open() + head1 + h1_close() + c1 + div_close() + mid + block_open() + head2
        + h1_close() + c2 + div_close() + tail
}

/// The markers of a shaped page stand only where the shape shows them: the
/// block-open marker occurs exactly twice, each heading-close marker is the
/// first of its piece, and each region text runs to the first block-close
/// marker after its heading.
pub open spec fn shaped_conditions(
    pre: Seq<char>,
    head1: Seq<char>,
    c1: Seq<char>,
    mid: Seq<char>,
    head2: Seq<char>,
    c2: Seq<char>,
    tail: Seq<char>,
) -> bool {
    &&& forall|j: int|
        occurs_at(shaped_page(pre, head1, c1, mid, head2, c2, tail), block_open(), j) ==> j
            == pre.len() || j == pre.len() + block_open().len() + head1.len() + h1_close().len()
            + c1.len() + div_close().len() + mid.len()
    &&& forall|j: int|
        0 <= j < head1.len() ==> !occurs_at(
            head1 + h1_close() + c1 + div_close() + mid,
            h1_close(),
            j,
        )
    &&& forall|j: int| 0 <= j < c1.len() ==> !occurs_at(c1 + div_close() + mid, div_close(), j)
    &&& forall|j: int|
        0 <= j < head2.len() ==> !occurs_at(
            head2 + h1_close() + c2 + div_close() + tail,
            h1_close(),
            j,
        )
    &&& forall|j: int| 0 <= j < c2.len() ==> !occurs_at(c2 + div_close() + tail, div_close(), j)
}

/// Region extraction on a page of the expected shape: a preamble, then the
/// first block with its heading and region text, an interlude, the second
/// block, and a trailer.  Provided the block-open marker occurs only where
/// the shape shows it, each heading-close marker is the first of its piece,
/// and each region text runs to the first block-close marker, extraction
/// yields exactly the two region texts.
pub proof fn lemma_regions_of_shaped_page(
    home: Seq<char>,
    pre: Seq<char>,
    head1: Seq<char>,
    c1: Seq<char>,
    mid: Seq<char>,
    head2: Seq<char>,
    c2: Seq<char>,
    tail: Seq<char>,
)
    requires
        home == shaped_page(pre, head1, c1, mid, head2, c2, tail),
        shaped_conditions(pre, head1, c1, mid, head2, c2, tail),
    ensures
        current_regions(home) == (Some(c1), Some(c2)),
{
    reveal_strlit("<div class=\"link-block\">");
    reveal_strlit("</h1>");
    reveal_strlit("</div>");
    let o = block_open();
    let hm = h1_close();
    let dv = div_close();
    let piece1 = head1 + hm + c1 + dv + mid;
    let piece2 = head2 + hm + c2 + dv + tail;
    assert(home =~= pre + o + piece1 + o + piece2);
    let p1 = pre.len() as int;
    let s1 = p1 + o.len();
    let p2 = s1 + piece1.len();
    let s2 = p2 + o.len();

    // the two marker occurrences the shape shows
    assert(occurs_at(home, o, p1)) by {
        assert(home.subrange(p1, p1 + o.len() as int) =~= o);
    }
    assert(occurs_at(home, o, p2)) by {
        assert(home.subrange(p2, p2 + o.len() as int) =~= o);
    }
    assert(p2 == pre.len() + block_open().len() + head1.len() + h1_close().len() + c1.len()
        + div_close().len() + mid.len());
    lemma_find_from_exact(home, o, 0, p1);
    lemma_find_from_exact(home, o, s1, p2);
    lemma_find_from_none(home, o, s2);

    assert(home.subrange(s1, p2) =~= piece1);
    assert(home.subrange(s2, home.len() as int) =~= piece2);

    // first piece: heading ends at |head1|, region runs to the first close
    assert(occurs_at(piece1, hm, head1.len() as int)) by {
        assert(piece1.subrange(head1.len() as int, (head1.len() + hm.len()) as int) =~= hm);
    }
    lemma_find_from_exact(piece1, hm, 0, head1.len() as int);
    let rest1 = piece1.subrange((head1.len() + hm.len()) as int, piece1.len() as int);
    assert(rest1 =~= c1 + dv + mid);
    assert(occurs_at(rest1, dv, c1.len() as int)) by {
        assert(rest1.subrange(c1.len() as int, (c1.len() + dv.len()) as int) =~= dv);
    }
    lemma_find_from_exact(rest1, dv, 0, c1.len() as int);
    assert(rest1.subrange(0, c1.len() as int) =~= c1);
    assert(extract_region(piece1) == Some(c1));

    // second piece, the same way
    assert(occurs_at(piece2, hm, head2.len() as int)) by {
        assert(piece2.subrange(head2.len() as int, (head2.len() + hm.len()) as int) =~= hm);
    }
    lemma_find_from_exact(piece2, hm, 0, head2.len() as int);
    let rest2 = piece2.subrange((head2.len() + hm.len()) as int, piece2.len() as int);
    assert(rest2 =~= c2 + dv + tail);
    assert(occurs_at(rest2, dv, c2.len() as int)) by {
        assert(rest2.subrange(c2.len() as int, (c2.len() + dv.len()) as int) =~= dv);
    }
    lemma_find_from_exact(rest2, dv, 0, c2.len() as int);
    assert(rest2.subrange(0, c2.len() as int) =~= c2);
    assert(extract_region(piece2) == Some(c2));
}

/// Idempotence of link regeneration: a page whose two regions already hold
/// exactly the rendered link text — as a page just written by a successful
/// regeneration does — is not written again.
pub proof fn lemma_no_rewrite_when_current(
    home: Seq<char>,
    tfiles: Seq<Seq<char>>,
    rfiles: Seq<Seq<char>>,
)
    requires
        current_regions(home).0 == Some(aggregate(tfiles, template_line(), "tdoc"@)),
        current_regions(home).1 == Some(aggregate(rfiles, report_line(), "rdoc"@)),
        aggregate(tfiles, template_line(), "tdoc"@).len() > 0,
        aggregate(rfiles, report_line(), "rdoc"@).len() > 0,
    ensures
        update_links_spec(home, tfiles, rfiles) == Ok::<Option<Seq<char>>, LinkError>(None),
{
}

/// Idempotence of link regeneration on a well-formed page.  The page has
/// the expected two-block shape; its markers, the text its regions hold,
/// and the freshly rendered link text stand only where the shape shows
/// them.  Then, whatever the first run decides — a rewrite or nothing —
/// a second run over the same listings writes nothing.
#[verifier::rlimit(60)]
pub proof fn lemma_update_links_idempotent(
    pre: Seq<char>,
    head1: Seq<char>,
    c1: Seq<char>,
    mid: Seq<char>,
    head2: Seq<char>,
    c2: Seq<char>,
    tail: Seq<char>,
    tfiles: Seq<Seq<char>>,
    rfiles: Seq<Seq<char>>,
)
    requires
        shaped_conditions(pre, head1, c1, mid, head2, c2, tail),
        // the block-open marker stands only twice in the rewritten page
        forall|j: int|
            occurs_at(
                shaped_page(
                    pre,
                    head1,
                    aggregate(tfiles, template_line(), "tdoc"@),
                    mid,
                    head2,
                    aggregate(rfiles, report_line(), "rdoc"@),
                    tail,
                ),
                block_open(),
                j,
            ) ==> j == pre.len() || j == pre.len() + block_open().len() + head1.len()
                + h1_close().len() + aggregate(tfiles, template_line(), "tdoc"@).len()
                + div_close().len() + mid.len(),
        // the fresh link text of either region reaches no block-close marker
        forall|j: int|
            0 <= j < aggregate(tfiles, template_line(), "tdoc"@).len() ==> !occurs_at(
                aggregate(tfiles, template_line(), "tdoc"@) + div_close() + mid,
                div_close(),
                j,
            ),
        forall|j: int|
            0 <= j < aggregate(rfiles, report_line(), "rdoc"@).len() ==> !occurs_at(
                aggregate(rfiles, report_line(), "rdoc"@) + div_close() + tail,
                div_close(),
                j,
            ),
        aggregate(tfiles, template_line(), "tdoc"@).len() > 0,
        aggregate(rfiles, report_line(), "rdoc"@).len() > 0,
        c1.len() >= 1,
        c2.len() >= 1,
        // the first region's text stands nowhere else in the page
        forall|j: int|
            j != pre.len() + block_open().len() + head1.len() + h1_close().len() ==> !occurs_at(
                shaped_page(pre, head1, c1, mid, head2, c2, tail),
                c1,
                j,
            ),
        // nor the second region's text in the half-rewritten page
        forall|j: int|
            j != pre.len() + block_open().len() + head1.len() + h1_close().len() + aggregate(
                tfiles,
                template_line(),
                "tdoc"@,
            ).len() + div_close().len() + mid.len() + block_open().len() + head2.len()
                + h1_close().len() ==> !occurs_at(
                shaped_page(
                    pre,
                    head1,
                    aggregate(tfiles, template_line(), "tdoc"@),
                    mid,
                    head2,
                    c2,
                    tail,
                ),
                c2,
                j,
            ),
    ensures
        ({
            let home = shaped_page(pre, head1, c1, mid, head2, c2, tail);
            let next = match update_links_spec(home, tfiles, rfiles) {
                Ok(Some(u)) => u,
                _ => home,
            };
            update_links_spec(next, tfiles, rfiles) == Ok::<Option<Seq<char>>, LinkError>(None)
        }),
{
    let o = block_open();
    let hm = h1_close();
    let dv = div_close();
    let tn = aggregate(tfiles, template_line(), "tdoc"@);
    let rn = aggregate(rfiles, report_line(), "rdoc"@);
    let home = shaped_page(pre, head1, c1, mid, head2, c2, tail);
    lemma_regions_of_shaped_page(home, pre, head1, c1, mid, head2, c2, tail);
    assert(template_lines_of(home) == c1);
    assert(report_lines_of(home) == c2);
    if tn == c1 && c2 == rn {
        lemma_no_rewrite_when_current(home, tfiles, rfiles);
    } else {
        let q1 = pre.len() + o.len() + head1.len() + hm.len();
        assert(occurs_at(home, c1, q1 as int)) by {
            assert(home.subrange(q1 as int, (q1 + c1.len()) as int) =~= c1);
        }
        lemma_replace_all_single_occurrence(home, c1, tn, q1 as int);
        let u1 = replace_all_spec(home, c1, tn);
        assert(u1 =~= shaped_page(pre, head1, tn, mid, head2, c2, tail)) by {
            assert(home.subrange(0, q1 as int) =~= pre + o + head1 + hm);
            assert(home.subrange((q1 + c1.len()) as int, home.len() as int) =~= dv + mid + o
                + head2 + hm + c2 + dv + tail);
        }
        let q2 = q1 + tn.len() + dv.len() + mid.len() + o.len() + head2.len() + hm.len();
        assert(occurs_at(u1, c2, q2 as int)) by {
            assert(u1.subrange(q2 as int, (q2 + c2.len()) as int) =~= c2);
        }
        lemma_replace_all_single_occurrence(u1, c2, rn, q2 as int);
        let u = replace_all_spec(u1, c2, rn);
        assert(u =~= shaped_page(pre, head1, tn, mid, head2, rn, tail)) by {
            assert(u1.subrange(0, q2 as int) =~= pre + o + head1 + hm + tn + dv + mid + o + head2
                + hm);
            assert(u1.subrange((q2 + c2.len()) as int, u1.len() as int) =~= dv + tail);
        }
        assert(update_links_spec(home, tfiles, rfiles) == Ok::<Option<Seq<char>>, LinkError>(
            Some(u),
        ));
        // the heading conditions carry over: a heading-close occurrence in
        // front of a heading's end never reaches past the marker itself
        assert forall|j: int| 0 <= j < head1.len() implies !occurs_at(
            head1 + hm + tn + dv + mid,
            hm,
            j,
        ) by {
            assert(head1 + hm + c1 + dv + mid =~= (head1 + hm) + (c1 + dv + mid));
            assert(head1 + hm + tn + dv + mid =~= (head1 + hm) + (tn + dv + mid));
            lemma_occurs_at_common_prefix(head1 + hm, c1 + dv + mid, tn + dv + mid, hm, j);
            assert(!occurs_at((head1 + hm) + (c1 + dv + mid), hm, j));
        }
        assert forall|j: int| 0 <= j < head2.len() implies !occurs_at(
            head2 + hm + rn + dv + tail,
            hm,
            j,
        ) by {
            assert(head2 + hm + c2 + dv + tail =~= (head2 + hm) + (c2 + dv + tail));
            assert(head2 + hm + rn + dv + tail =~= (head2 + hm) + (rn + dv + tail));
            lemma_occurs_at_common_prefix(head2 + hm, c2 + dv + tail, rn + dv + tail, hm, j);
            assert(!occurs_at((head2 + hm) + (c2 + dv + tail), hm, j));
        }
        assert(shaped_conditions(pre, head1, tn, mid, head2, rn, tail));
        lemma_regions_of_shaped_page(
            u,
            pre,
            head1,
            tn,
            mid,
            head2,
            rn,
            tail,
        );
        lemma_no_rewrite_when_current(u, tfiles, rfiles);
    }
}

} // verus!
