use vstd::prelude::*;

use crate::titles::normalize_chars;

verus! {

/// The edit distance between two character sequences: insertions, deletions
/// and substitutions, each costing one.
pub open spec fn edit_distance(a: Seq<char>, b: Seq<char>) -> nat
    decreases a.len(), b.len(),
{
    if a.len() == 0 {
        b.len()
    } else if b.len() == 0 {
        a.len()
    } else if a.last() == b.last() {
        edit_distance(a.drop_last(), b.drop_last())
    } else {
        1 + vstd::math::min(
            vstd::math::min(
                edit_distance(a.drop_last(), b) as int,
                edit_distance(a, b.drop_last()) as int,
            ),
            edit_distance(a.drop_last(), b.drop_last()) as int,
        ) as nat
    }
}

/// Computes the edit distance, following its definition directly.
pub fn edit_distance_exec(a: &Vec<char>, b: &Vec<char>) -> (r: usize)
    requires
        a@.len() + b@.len() <= 40,
    ensures
        r == edit_distance(a@, b@),
    decreases a@.len(), b@.len(),
{
    if a.len() == 0 {
        b.len()
    } else if b.len() == 0 {
        a.len()
    } else if a[a.len() - 1] == b[b.len() - 1] {
        let mut a2 = a.clone();
        let mut b2 = b.clone();
        let _ = a2.pop();
        let _ = b2.pop();
        proof {
            assert(a2@ =~= a@.drop_last());
            assert(b2@ =~= b@.drop_last());
        }
        edit_distance_exec(&a2, &b2)
    } else {
        let mut a2 = a.clone();
        let mut b2 = b.clone();
        let _ = a2.pop();
        let _ = b2.pop();
        proof {
            assert(a2@ =~= a@.drop_last());
            assert(b2@ =~= b@.drop_last());
        }
        let d1 = edit_distance_exec(&a2, b);
        let d2 = edit_distance_exec(a, &b2);
        let d3 = edit_distance_exec(&a2, &b2);
        proof {
            lemma_edit_distance_bound(a@.drop_last(), b@);
        }
        let m1 = if d1 < d2 {
            d1
        } else {
            d2
        };
        let m = if m1 < d3 {
            m1
        } else {
            d3
        };
        1 + m
    }
}

/// The distance never exceeds the longer side's length plus the other's.
pub proof fn lemma_edit_distance_bound(a: Seq<char>, b: Seq<char>)
    ensures
        edit_distance(a, b) <= a.len() + b.len(),
    decreases a.len(), b.len(),
{
    if a.len() == 0 {
    } else if b.len() == 0 {
    } else if a.last() == b.last() {
        lemma_edit_distance_bound(a.drop_last(), b.drop_last());
    } else {
        lemma_edit_distance_bound(a.drop_last(), b);
        lemma_edit_distance_bound(a, b.drop_last());
        lemma_edit_distance_bound(a.drop_last(), b.drop_last());
    }
}

/// How well a directory name fits a game's expected install-dir name, on a
/// thousand-point scale: an exact match is full marks, a case-and-symbol
/// insensitive match just under, and anything else degrades with the edit
/// distance between the normalized names.
pub open spec fn spec_dir_score(expected: Seq<char>, candidate: Seq<char>) -> int {
    if expected == candidate {
        1000
    } else if normalize_chars(expected) == normalize_chars(candidate) {
        990
    } else {
        let ne = normalize_chars(expected);
        let nc = normalize_chars(candidate);
        let len = vstd::math::max(ne.len() as int, nc.len() as int);
        if len == 0 {
            0
        } else if edit_distance(ne, nc) as int >= len {
            0
        } else {
            (900 * (len - edit_distance(ne, nc) as int)) / len
        }
    }
}

/// Scores a candidate install directory against the expected name. Long
/// names are compared only by their normalized forms' equality, scoring
/// nothing when they differ.
pub fn score_install_dir(expected: &String, candidate: &String) -> (r: i32)
    ensures
        expected@ == candidate@ ==> r == 1000,
        expected@ != candidate@ && normalize_chars(expected@) == normalize_chars(candidate@)
            ==> r == 990,
        expected@ != candidate@ && normalize_chars(expected@) != normalize_chars(candidate@)
            && normalize_chars(expected@).len() + normalize_chars(candidate@).len() <= 40 ==> r
            == spec_dir_score(expected@, candidate@),
        expected@ != candidate@ && normalize_chars(expected@) != normalize_chars(candidate@)
            && normalize_chars(expected@).len() + normalize_chars(candidate@).len() > 40 ==> r
            == 0,
        0 <= r <= 1000,
{
    if crate::text::str_eq(expected, candidate) {
        return 1000;
    }
    let ne = crate::titles::normalize_title(expected);
    let nc = crate::titles::normalize_title(candidate);
    if crate::text::str_eq(&ne, &nc) {
        return 990;
    }
    let nec = crate::text::chars_of(ne.as_str());
    let ncc = crate::text::chars_of(nc.as_str());
    if nec.len() > 40 || ncc.len() > 40 || nec.len() + ncc.len() > 40 {
        return 0;
    }
    let d = edit_distance_exec(&nec, &ncc);
    let len = if nec.len() > ncc.len() {
        nec.len()
    } else {
        ncc.len()
    };
    if len == 0 {
        return 0;
    }
    if d >= len {
        return 0;
    }
    proof {
        assert(len <= 40);
        assert(900 * (len - d) <= 900 * 40) by (nonlinear_arith)
            requires
                0 <= len - d <= 40,
        ;
        assert((900 * (len as int - d as int)) / len as int <= 1000) by (nonlinear_arith)
            requires
                0 < len as int <= 40,
                0 <= len as int - d as int <= len as int,
        ;
        assert((900 * (len as int - d as int)) / len as int >= 0) by (nonlinear_arith)
            requires
                0 < len as int,
                0 <= len as int - d as int,
        ;
    }
    let num: usize = 900 * (len - d);
    (num / len) as i32
}

} // verus!
