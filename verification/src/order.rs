//! Lexicographic ordering of rendered link lines, and the sort that makes
//! link regeneration deterministic.

use vstd::prelude::*;
use vstd::relations::{sorted_by, total_ordering};
use vstd::seq_lib::lemma_sorted_unique;

use itertools::Itertools;

use crate::text::seq_views;

verus! {

/// Lexicographic order on character strings, by code point.
pub open spec fn lex_le(a: Seq<char>, b: Seq<char>) -> bool
    decreases a.len(),
{
    if a.len() == 0 {
        true
    } else if b.len() == 0 {
        false
    } else if a[0] != b[0] {
        a[0] < b[0]
    } else {
        lex_le(a.drop_first(), b.drop_first())
    }
}

/// The same order as a relation value, for vstd's sorting vocabulary.
pub open spec fn lex_leq() -> spec_fn(Seq<char>, Seq<char>) -> bool {
    |a: Seq<char>, b: Seq<char>| lex_le(a, b)
}

pub proof fn lemma_lex_le_refl(a: Seq<char>)
    ensures
        lex_le(a, a),
    decreases a.len(),
{
    if a.len() > 0 {
        lemma_lex_le_refl(a.drop_first());
    }
}

pub proof fn lemma_lex_le_total(a: Seq<char>, b: Seq<char>)
    ensures
        lex_le(a, b) || lex_le(b, a),
    decreases a.len(),
{
    if a.len() > 0 && b.len() > 0 && a[0] == b[0] {
        lemma_lex_le_total(a.drop_first(), b.drop_first());
    }
}

pub proof fn lemma_lex_le_antisym(a: Seq<char>, b: Seq<char>)
    requires
        lex_le(a, b),
        lex_le(b, a),
    ensures
        a == b,
    decreases a.len(),
{
    if a.len() == 0 {
        assert(b.len() == 0);
        assert(a =~= b);
    } else {
        assert(b.len() > 0);
        assert(a[0] == b[0]);
        lemma_lex_le_antisym(a.drop_first(), b.drop_first());
        assert(a =~= seq![a[0]] + a.drop_first());
        assert(b =~= seq![b[0]] + b.drop_first());
    }
}

pub proof fn lemma_lex_le_trans(a: Seq<char>, b: Seq<char>, c: Seq<char>)
    requires
        lex_le(a, b),
        lex_le(b, c),
    ensures
        lex_le(a, c),
    decreases a.len(),
{
    if a.len() == 0 {
    } else {
        assert(b.len() > 0);
        assert(c.len() > 0);
        if a[0] == b[0] && b[0] == c[0] {
            lemma_lex_le_trans(a.drop_first(), b.drop_first(), c.drop_first());
        }
    }
}

/// The lexicographic order is a total order.
pub proof fn lemma_lex_total_ordering()
    ensures
        total_ordering(lex_leq()),
{
    let r = lex_leq();
    assert forall|a: Seq<char>| #[trigger] r(a, a) by {
        lemma_lex_le_refl(a);
    }
    assert forall|a: Seq<char>, b: Seq<char>| #[trigger] r(a, b) && #[trigger] r(b, a) implies a
        == b by {
        lemma_lex_le_antisym(a, b);
    }
    assert forall|a: Seq<char>, b: Seq<char>, c: Seq<char>|
        #[trigger] r(a, b) && #[trigger] r(b, c) implies r(a, c) by {
        lemma_lex_le_trans(a, b, c);
    }
    assert forall|a: Seq<char>, b: Seq<char>| #[trigger] r(a, b) || #[trigger] r(b, a) by {
        lemma_lex_le_total(a, b);
    }
}

/// Relies on itertools' `sorted`: the strings come back ascending in
/// `String`'s own order, which is lexicographic by code point, and as a
/// permutation of what went in.
#[verifier::external_body]
fn sort_strings(v: Vec<String>) -> (r: Vec<String>)
    ensures
        sorted_by(seq_views(r@), lex_leq()),
        seq_views(r@).to_multiset() == seq_views(v@).to_multiset(),
{
    v.into_iter().sorted().collect()
}

/// Sort strings ascending: the result is exactly `sort_by` of the input
/// views under the lexicographic order.
pub fn sort_lines(v: Vec<String>) -> (r: Vec<String>)
    ensures
        seq_views(r@) == seq_views(v@).sort_by(lex_leq()),
{
    let ghost vs = seq_views(v@);
    let r = sort_strings(v);
    proof {
        lemma_lex_total_ordering();
        vs.lemma_sort_by_ensures(lex_leq());
        assert(seq_views(r@).to_multiset() == vs.sort_by(lex_leq()).to_multiset());
        lemma_sorted_unique(seq_views(r@), vs.sort_by(lex_leq()), lex_leq());
        assert(seq_views(r@) =~= vs.sort_by(lex_leq()));
    }
    r
}

} // verus!
