//! Plain-text searching and substitution over strings, viewed as `Seq<char>`.

use vstd::prelude::*;

verus! {

/// The views of a sequence of strings.
pub open spec fn seq_views(s: Seq<String>) -> Seq<Seq<char>> {
    s.map_values(|x: String| x@)
}

/// The needle `n` occurs in `h` starting at position `i`.
pub open spec fn occurs_at(h: Seq<char>, n: Seq<char>, i: int) -> bool {
    &&& 0 <= i
    &&& i + n.len() <= h.len()
    &&& h.subrange(i, i + n.len()) == n
}

/// Position of the leftmost occurrence of `n` in `h` at or after `from`.
pub open spec fn find_from(h: Seq<char>, n: Seq<char>, from: int) -> Option<int>
    decreases h.len() - from + 1,
{
    if from + n.len() > h.len() {
        None
    } else if occurs_at(h, n, from) {
        Some(from)
    } else {
        find_from(h, n, from + 1)
    }
}

/// What `find_from` returns is the leftmost occurrence at or after `from`,
/// and `None` means there is none.
pub proof fn lemma_find_from(h: Seq<char>, n: Seq<char>, from: int)
    ensures
        match find_from(h, n, from) {
            Some(i) => from <= i && occurs_at(h, n, i) && forall|j: int|
                from <= j < i ==> !occurs_at(h, n, j),
            None => forall|j: int| from <= j ==> !occurs_at(h, n, j),
        },
    decreases h.len() - from + 1,
{
    if from + n.len() > h.len() {
        assert forall|j: int| from <= j implies !occurs_at(h, n, j) by {}
    } else if occurs_at(h, n, from) {
    } else {
        lemma_find_from(h, n, from + 1);
    }
}

/// `h` with the leftmost occurrence of `f` (if any) replaced by `t`.
/// An empty pattern matches nothing and leaves `h` unchanged.
pub open spec fn replace_first_spec(h: Seq<char>, f: Seq<char>, t: Seq<char>) -> Seq<char> {
    if f.len() == 0 {
        h
    } else {
        match find_from(h, f, 0) {
            None => h,
            Some(i) => h.subrange(0, i) + t + h.subrange(i + f.len(), h.len() as int),
        }
    }
}

/// The tail of `h` from `pos` on, with every occurrence of `f` replaced by
/// `t`, scanning left to right without overlap.
pub open spec fn replace_from(h: Seq<char>, f: Seq<char>, t: Seq<char>, pos: int) -> Seq<char>
    decreases h.len() - pos,
    via replace_from_decreases
{
    if f.len() == 0 {
        h.subrange(pos, h.len() as int)
    } else {
        match find_from(h, f, pos) {
            None => h.subrange(pos, h.len() as int),
            Some(i) => h.subrange(pos, i) + t + replace_from(h, f, t, i + f.len()),
        }
    }
}

#[via_fn]
proof fn replace_from_decreases(h: Seq<char>, f: Seq<char>, t: Seq<char>, pos: int) {
    lemma_find_from(h, f, pos);
}

/// `h` with every occurrence of `f` replaced by `t`, left to right without
/// overlap.  An empty pattern matches nothing and leaves `h` unchanged.
pub open spec fn replace_all_spec(h: Seq<char>, f: Seq<char>, t: Seq<char>) -> Seq<char> {
    if f.len() == 0 {
        h
    } else {
        replace_from(h, f, t, 0)
    }
}

/// The inverse reading: an occurrence at `i` with none between `from` and
/// `i` is what `find_from` returns.
pub proof fn lemma_find_from_exact(h: Seq<char>, n: Seq<char>, from: int, i: int)
    requires
        from <= i,
        occurs_at(h, n, i),
        forall|j: int| from <= j < i ==> !occurs_at(h, n, j),
    ensures
        find_from(h, n, from) == Some(i),
{
    lemma_find_from(h, n, from);
    match find_from(h, n, from) {
        Some(x) => {
            if x < i {
                assert(!occurs_at(h, n, x));
            }
            if x > i {
                assert(!occurs_at(h, n, i));
            }
        },
        None => {
            assert(!occurs_at(h, n, i));
        },
    }
}

/// The inverse reading of a failed search: no occurrence at or after
/// `from` means `find_from` returns nothing.
pub proof fn lemma_find_from_none(h: Seq<char>, n: Seq<char>, from: int)
    requires
        forall|j: int| from <= j ==> !occurs_at(h, n, j),
    ensures
        find_from(h, n, from) is None,
{
    lemma_find_from(h, n, from);
    match find_from(h, n, from) {
        Some(x) => {
            assert(!occurs_at(h, n, x));
        },
        None => {},
    }
}

/// An occurrence that fits inside a common prefix does not care what
/// follows the prefix.
pub proof fn lemma_occurs_at_common_prefix(
    a: Seq<char>,
    b: Seq<char>,
    c: Seq<char>,
    n: Seq<char>,
    j: int,
)
    requires
        0 <= j,
        j + n.len() <= a.len(),
    ensures
        occurs_at(a + b, n, j) == occurs_at(a + c, n, j),
{
    assert((a + b).subrange(j, j + n.len()) =~= (a + c).subrange(j, j + n.len()));
}

/// Replacing a pattern that occurs exactly once splices the substitute in
/// at that one place.
pub proof fn lemma_replace_all_single_occurrence(h: Seq<char>, f: Seq<char>, t: Seq<char>, q: int)
    requires
        f.len() >= 1,
        occurs_at(h, f, q),
        forall|j: int| j != q ==> !occurs_at(h, f, j),
    ensures
        replace_all_spec(h, f, t) == h.subrange(0, q) + t + h.subrange(q + f.len(), h.len() as int),
{
    lemma_find_from_exact(h, f, 0, q);
    lemma_find_from_none(h, f, q + f.len());
    assert(replace_from(h, f, t, 0) == h.subrange(0, q) + t + replace_from(h, f, t, q + f.len()));
}

/// Character-by-character check that `n` occurs in `h` at position `i`.
pub fn matches_at(h: &str, n: &str, i: usize, hl: usize, nl: usize) -> (b: bool)
    requires
        hl == h@.len(),
        nl == n@.len(),
        i + nl <= hl,
    ensures
        b == occurs_at(h@, n@, i as int),
{
    let mut k: usize = 0;
    while k < nl
        invariant
            hl == h@.len(),
            nl == n@.len(),
            i + nl <= hl,
            k <= nl,
            forall|m: int| 0 <= m < k ==> h@[i + m] == n@[m],
        decreases nl - k,
    {
        if h.get_char(i + k) != n.get_char(k) {
            proof {
                assert(h@.subrange(i as int, i + n@.len())[k as int] != n@[k as int]);
            }
            return false;
        }
        k = k + 1;
    }
    proof {
        assert(h@.subrange(i as int, i + n@.len()) =~= n@);
    }
    true
}

/// Leftmost occurrence of `n` in `h` at or after `from`, as `find_from` gives it.
pub fn find_str(h: &str, n: &str, from: usize) -> (r: Option<usize>)
    requires
        from <= h@.len(),
        n@.len() >= 1,
    ensures
        match r {
            Some(i) => find_from(h@, n@, from as int) == Some(i as int),
            None => find_from(h@, n@, from as int) is None,
        },
{
    let hl = h.unicode_len();
    let nl = n.unicode_len();
    let mut i = from;
    loop
        invariant
            hl == h@.len(),
            nl == n@.len(),
            nl >= 1,
            from <= i <= hl,
            forall|j: int| from <= j < i ==> !occurs_at(h@, n@, j),
        decreases hl - i,
    {
        if nl > hl - i {
            proof {
                lemma_find_from(h@, n@, from as int);
                assert forall|j: int| from <= j implies !occurs_at(h@, n@, j) by {
                    if j < i {
                    } else {
                        assert(j + n@.len() > h@.len());
                    }
                }
            }
            return None;
        }
        if matches_at(h, n, i, hl, nl) {
            proof {
                lemma_find_from(h@, n@, from as int);
                match find_from(h@, n@, from as int) {
                    Some(x) => {
                        if x < i {
                            assert(!occurs_at(h@, n@, x));
                        }
                        if x > i {
                            assert(!occurs_at(h@, n@, i as int));
                        }
                    },
                    None => {
                        assert(!occurs_at(h@, n@, i as int));
                    },
                }
            }
            return Some(i);
        }
        i = i + 1;
    }
}

/// `h` with every occurrence of `f` replaced by `t`, scanning left to right.
pub fn replace_all(h: &str, f: &str, t: &str) -> (r: String)
    ensures
        r@ == replace_all_spec(h@, f@, t@),
{
    let hl = h.unicode_len();
    let fl = f.unicode_len();
    if fl == 0 {
        return h.to_owned();
    }
    let mut out = String::new();
    let mut pos: usize = 0;
    loop
        invariant
            hl == h@.len(),
            fl == f@.len(),
            fl >= 1,
            pos <= hl,
            replace_from(h@, f@, t@, 0) == out@ + replace_from(h@, f@, t@, pos as int),
        decreases hl - pos,
    {
        match find_str(h, f, pos) {
            Some(i) => {
                proof {
                    lemma_find_from(h@, f@, pos as int);
                }
                let piece = h.substring_char(pos, i);
                out.append(piece);
                out.append(t);
                proof {
                    assert(h@.subrange(pos as int, i as int) + t@ + replace_from(
                        h@,
                        f@,
                        t@,
                        i + f@.len(),
                    ) == replace_from(h@, f@, t@, pos as int));
                    assert(out@ + replace_from(h@, f@, t@, i + f@.len()) =~= replace_from(
                        h@,
                        f@,
                        t@,
                        0,
                    ));
                }
                pos = i + fl;
            },
            None => {
                let piece = h.substring_char(pos, hl);
                out.append(piece);
                proof {
                    assert(out@ =~= replace_from(h@, f@, t@, 0));
                }
                return out;
            },
        }
    }
}

/// `h` with the leftmost occurrence of `f` (if any) replaced by `t`.
pub fn replace_first(h: &str, f: &str, t: &str) -> (r: String)
    ensures
        r@ == replace_first_spec(h@, f@, t@),
{
    let hl = h.unicode_len();
    let fl = f.unicode_len();
    if fl == 0 {
        return h.to_owned();
    }
    match find_str(h, f, 0) {
        Some(i) => {
            proof {
                lemma_find_from(h@, f@, 0);
            }
            let mut out = h.substring_char(0, i).to_owned();
            out.append(t);
            out.append(h.substring_char(i + fl, hl));
            proof {
                assert(out@ =~= replace_first_spec(h@, f@, t@));
            }
            out
        },
        None => h.to_owned(),
    }
}

} // verus!
