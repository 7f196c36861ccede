use vstd::prelude::*;

use crate::manifest::{Game, Manifest};
use crate::text::{has_name, lex_le, sorted_strings, view_of_names};

verus! {

/// A name reduced for loose matching: ASCII letters lowered, everything but
/// ASCII letters and digits dropped.
pub open spec fn normalize_chars(s: Seq<char>) -> Seq<char>
    decreases s.len(),
{
    if s.len() == 0 {
        Seq::empty()
    } else {
        let rest = normalize_chars(s.drop_last());
        let c = s.last();
        if 'A' <= c && c <= 'Z' {
            rest + seq![(((c as u32) + 32) as char)]
        } else if ('a' <= c && c <= 'z') || ('0' <= c && c <= '9') {
            rest + seq![c]
        } else {
            rest
        }
    }
}

/// Normalizes a name for loose title matching.
pub fn normalize_title(s: &String) -> (r: String)
    ensures
        r@ == normalize_chars(s@),
{
    let cs = crate::text::chars_of(s.as_str());
    let mut out: Vec<char> = Vec::new();
    let mut i: usize = 0;
    proof {
        assert(out@ =~= normalize_chars(s@.take(0int)));
    }
    while i < cs.len()
        invariant
            0 <= i <= cs.len(),
            cs@ == s@,
            out@ == normalize_chars(s@.take(i as int)),
        decreases cs.len() - i,
    {
        let c = cs[i];
        proof {
            assert(s@.take(i + 1).drop_last() =~= s@.take(i as int));
            assert(s@.take(i + 1).last() == s@[i as int]);
        }
        if 'A' <= c && c <= 'Z' {
            let lowered = ((c as u8) + 32) as char;
            proof {
                vstd::utf8::char_u32_cast(lowered, lowered as u32);
                assert(lowered == (((c as u32) + 32) as char));
            }
            out.push(lowered);
            proof {
                assert(out@ =~= normalize_chars(s@.take(i + 1)));
            }
        } else if ('a' <= c && c <= 'z') || ('0' <= c && c <= '9') {
            out.push(c);
            proof {
                assert(out@ =~= normalize_chars(s@.take(i + 1)));
            }
        } else {
            proof {
                assert(out@ =~= normalize_chars(s@.take(i + 1)));
            }
        }
        i = i + 1;
    }
    proof {
        assert(s@.take(cs@.len() as int) =~= s@);
    }
    crate::text::string_of(&out)
}

/// Whether some requested name matches a canonical name, loosely when asked.
pub open spec fn name_matches(
    names: Seq<String>,
    canonical: Seq<char>,
    normalized: bool,
) -> bool {
    has_name(names, canonical) || (normalized && exists|i: int|
        0 <= i < names.len() && normalize_chars((#[trigger] names[i])@) == normalize_chars(
            canonical,
        ))
}

/// Whether a catalog entry is found by a query.
pub open spec fn entry_found(
    name: Seq<char>,
    game: Game,
    restorable: Seq<String>,
    names: Seq<String>,
    steam_id: Option<u32>,
    gog_id: Option<u32>,
    normalized: bool,
    must_restore: bool,
) -> bool {
    &&& (must_restore ==> has_name(restorable, name))
    &&& {
        ||| (steam_id is Some && game.steam_id == steam_id)
        ||| (gog_id is Some && game.gog_id == gog_id)
        ||| (names.len() > 0 && name_matches(names, name, normalized))
    }
}

/// Answers title queries against the catalog and the set of restorable games.
pub struct TitleFinder {
    pub catalog: Manifest,
    pub restorable: Vec<String>,
}

impl TitleFinder {
    pub fn new(catalog: Manifest, restorable: Vec<String>) -> (r: TitleFinder)
        ensures
            r.catalog == catalog,
            r.restorable@ == restorable@,
    {
        TitleFinder { catalog, restorable }
    }

    /// Finds every canonical name the query matches: by exact name, by
    /// normalized name when asked, or by store id; restricted to restorable
    /// games when asked. The result is sorted and free of repeats.
    pub fn find(
        &self,
        names: &Vec<String>,
        steam_id: Option<u32>,
        gog_id: Option<u32>,
        normalized: bool,
        must_restore: bool,
    ) -> (r: Vec<String>)
        requires
            self.catalog.wf(),
        ensures
            sorted_strings(r@),
            forall|a: int, b: int| 0 <= a < b < r@.len() ==> (#[trigger] r@[a])@ != (
            #[trigger] r@[b])@,
            forall|n: Seq<char>|
                #![trigger has_name(r@, n)]
                has_name(r@, n) <==> exists|i: int|
                    0 <= i < self.catalog.games@.len() && (
                    #[trigger] self.catalog.games@[i]).0@ == n && entry_found(
                        n,
                        self.catalog.games@[i].1,
                        self.restorable@,
                        names@,
                        steam_id,
                        gog_id,
                        normalized,
                        must_restore,
                    ),
    {
        let mut found: Vec<String> = Vec::new();
        let mut i: usize = 0;
        while i < self.catalog.games.len()
            invariant
                0 <= i <= self.catalog.games@.len(),
                self.catalog.wf(),
                forall|a: int, b: int|
                    0 <= a < b < found@.len() ==> (#[trigger] found@[a])@ != (
                    #[trigger] found@[b])@,
                forall|n: Seq<char>|
                    #![trigger has_name(found@, n)]
                    has_name(found@, n) <==> exists|j: int|
                        0 <= j < i && (#[trigger] self.catalog.games@[j]).0@ == n && entry_found(
                            n,
                            self.catalog.games@[j].1,
                            self.restorable@,
                            names@,
                            steam_id,
                            gog_id,
                            normalized,
                            must_restore,
                        ),
            decreases self.catalog.games@.len() - i,
        {
            let entry = &self.catalog.games[i];
            let mut hit: bool = false;
            match steam_id {
                Some(sid) => {
                    match &entry.1.steam_id {
                        Some(g) => {
                            if *g == sid {
                                hit = true;
                            }
                        },
                        None => {},
                    }
                },
                None => {},
            }
            match gog_id {
                Some(gid) => {
                    match &entry.1.gog_id {
                        Some(g) => {
                            if *g == gid {
                                hit = true;
                            }
                        },
                        None => {},
                    }
                },
                None => {},
            }
            if !hit && names.len() > 0 {
                if crate::text::contains_name(names, &entry.0) {
                    hit = true;
                } else if normalized {
                    let target = normalize_title(&entry.0);
                    let mut j: usize = 0;
                    while j < names.len()
                        invariant
                            0 <= j <= names@.len(),
                            target@ == normalize_chars(self.catalog.games@[i as int].0@),
                            i < self.catalog.games@.len(),
                            hit ==> name_matches(
                                names@,
                                self.catalog.games@[i as int].0@,
                                normalized,
                            ),
                            !hit ==> forall|a: int|
                                0 <= a < j ==> normalize_chars((#[trigger] names@[a])@)
                                    != normalize_chars(self.catalog.games@[i as int].0@),
                            normalized,
                        ensures
                            hit ==> name_matches(
                                names@,
                                self.catalog.games@[i as int].0@,
                                normalized,
                            ),
                            !hit ==> forall|a: int|
                                0 <= a < names@.len() ==> normalize_chars((
                                #[trigger] names@[a])@) != normalize_chars(
                                    self.catalog.games@[i as int].0@,
                                ),
                        decreases names@.len() - j,
                    {
                        let cand = normalize_title(&names[j]);
                        if crate::text::str_eq(&cand, &target) {
                            hit = true;
                            proof {
                                assert(normalize_chars(names@[j as int]@) == normalize_chars(
                                    self.catalog.games@[i as int].0@,
                                ));
                            }
                            break ;
                        }
                        j = j + 1;
                    }
                }
            }
            let mut ok = hit;
            if ok && must_restore {
                if !crate::text::contains_name(&self.restorable, &entry.0) {
                    ok = false;
                }
            }
            let ghost prev = found@;
            if ok {
                proof {
                    assert(entry_found(
                        self.catalog.games@[i as int].0@,
                        self.catalog.games@[i as int].1,
                        self.restorable@,
                        names@,
                        steam_id,
                        gog_id,
                        normalized,
                        must_restore,
                    ));
                }
                found.push(entry.0.clone());
                proof {
                    assert forall|a: int, b: int|
                        0 <= a < b < found@.len() implies (#[trigger] found@[a])@ != (
                    #[trigger] found@[b])@ by {
                        if b == found@.len() - 1 {
                            assert(found@[a] == prev[a]);
                            if has_name(prev, self.catalog.games@[i as int].0@) {
                                let j = choose|j: int|
                                    0 <= j < i && (#[trigger] self.catalog.games@[j]).0@
                                        == self.catalog.games@[i as int].0@ && entry_found(
                                        self.catalog.games@[j].0@,
                                        self.catalog.games@[j].1,
                                        self.restorable@,
                                        names@,
                                        steam_id,
                                        gog_id,
                                        normalized,
                                        must_restore,
                                    );
                                assert(false);
                            }
                            assert(found@[b]@ == self.catalog.games@[i as int].0@);
                            if found@[a]@ == found@[b]@ {
                                assert(has_name(prev, self.catalog.games@[i as int].0@));
                            }
                        } else {
                            assert(found@[a] == prev[a] && found@[b] == prev[b]);
                        }
                    }
                    assert forall|n: Seq<char>|
                        #![trigger has_name(found@, n)]
                        has_name(found@, n) <==> exists|j: int|
                            0 <= j < i + 1 && (#[trigger] self.catalog.games@[j]).0@ == n
                                && entry_found(
                                n,
                                self.catalog.games@[j].1,
                                self.restorable@,
                                names@,
                                steam_id,
                                gog_id,
                                normalized,
                                must_restore,
                            ) by {
                        if has_name(found@, n) {
                            let a = choose|a: int|
                                0 <= a < found@.len() && (#[trigger] found@[a])@ == n;
                            if a < prev.len() {
                                assert(has_name(prev, n));
                            } else {
                                assert(n == self.catalog.games@[i as int].0@);
                            }
                        }
                        if exists|j: int|
                            0 <= j < i + 1 && (#[trigger] self.catalog.games@[j]).0@ == n
                                && entry_found(
                                n,
                                self.catalog.games@[j].1,
                                self.restorable@,
                                names@,
                                steam_id,
                                gog_id,
                                normalized,
                                must_restore,
                            ) {
                            let j = choose|j: int|
                                0 <= j < i + 1 && (#[trigger] self.catalog.games@[j]).0@ == n
                                    && entry_found(
                                    n,
                                    self.catalog.games@[j].1,
                                    self.restorable@,
                                    names@,
                                    steam_id,
                                    gog_id,
                                    normalized,
                                    must_restore,
                                );
                            if j < i {
                                assert(has_name(prev, n));
                                let a = choose|a: int|
                                    0 <= a < prev.len() && (#[trigger] prev[a])@ == n;
                                assert(found@[a]@ == n);
                            } else {
                                assert(found@[found@.len() - 1]@ == n);
                            }
                        }
                    }
                }
            } else {
                proof {
                    assert(!entry_found(
                        self.catalog.games@[i as int].0@,
                        self.catalog.games@[i as int].1,
                        self.restorable@,
                        names@,
                        steam_id,
                        gog_id,
                        normalized,
                        must_restore,
                    ));
                    assert forall|n: Seq<char>|
                        #![trigger has_name(found@, n)]
                        has_name(found@, n) <==> exists|j: int|
                            0 <= j < i + 1 && (#[trigger] self.catalog.games@[j]).0@ == n
                                && entry_found(
                                n,
                                self.catalog.games@[j].1,
                                self.restorable@,
                                names@,
                                steam_id,
                                gog_id,
                                normalized,
                                must_restore,
                            ) by {
                        if exists|j: int|
                            0 <= j < i + 1 && (#[trigger] self.catalog.games@[j]).0@ == n
                                && entry_found(
                                n,
                                self.catalog.games@[j].1,
                                self.restorable@,
                                names@,
                                steam_id,
                                gog_id,
                                normalized,
                                must_restore,
                            ) {
                            let j = choose|j: int|
                                0 <= j < i + 1 && (#[trigger] self.catalog.games@[j]).0@ == n
                                    && entry_found(
                                    n,
                                    self.catalog.games@[j].1,
                                    self.restorable@,
                                    names@,
                                    steam_id,
                                    gog_id,
                                    normalized,
                                    must_restore,
                                );
                            assert(j < i);
                        }
                    }
                }
            }
            i = i + 1;
        }
        let ghost unsorted = found@;
        let r = crate::text::sort_names(found);
        proof {
            lemma_has_name_same_multiset(unsorted, r@);
            broadcast use vstd::seq_lib::group_to_multiset_ensures;

            assert forall|a: int, b: int| 0 <= a < b < r@.len() implies (#[trigger] r@[a])@ != (
            #[trigger] r@[b])@ by {
                lemma_sorted_distinct(unsorted, r@, a, b);
            }
        }
        r
    }
}

/// Two string vectors with the same contents hold the same names.
pub proof fn lemma_has_name_same_multiset(v1: Seq<String>, v2: Seq<String>)
    requires
        view_of_names(v1).to_multiset() == view_of_names(v2).to_multiset(),
    ensures
        forall|n: Seq<char>|
            #![trigger has_name(v1, n)]
            #![trigger has_name(v2, n)]
            has_name(v1, n) == has_name(v2, n),
{
    broadcast use vstd::seq_lib::group_to_multiset_ensures;

    assert forall|n: Seq<char>|
        #![trigger has_name(v1, n)]
        #![trigger has_name(v2, n)]
        has_name(v1, n) == has_name(v2, n) by {
        if has_name(v1, n) {
            let i = choose|i: int| 0 <= i < v1.len() && (#[trigger] v1[i])@ == n;
            assert(view_of_names(v1)[i] == n);
            assert(view_of_names(v1).contains(n));
            assert(view_of_names(v2).to_multiset().count(n) > 0);
            assert(view_of_names(v2).contains(n));
            let j = choose|j: int| 0 <= j < view_of_names(v2).len() && view_of_names(v2)[j] == n;
            assert(v2[j]@ == n);
        }
        if has_name(v2, n) {
            let i = choose|i: int| 0 <= i < v2.len() && (#[trigger] v2[i])@ == n;
            assert(view_of_names(v2)[i] == n);
            assert(view_of_names(v2).contains(n));
            assert(view_of_names(v1).to_multiset().count(n) > 0);
            assert(view_of_names(v1).contains(n));
            let j = choose|j: int| 0 <= j < view_of_names(v1).len() && view_of_names(v1)[j] == n;
            assert(v1[j]@ == n);
        }
    }
}

/// A sorted rearrangement of a repeat-free vector stays repeat-free.
proof fn lemma_sorted_distinct(orig: Seq<String>, sorted: Seq<String>, a: int, b: int)
    requires
        view_of_names(orig).to_multiset() == view_of_names(sorted).to_multiset(),
        forall|x: int, y: int|
            0 <= x < y < orig.len() ==> (#[trigger] orig[x])@ != (#[trigger] orig[y])@,
        0 <= a < b < sorted.len(),
    ensures
        sorted[a]@ != sorted[b]@,
{
    broadcast use vstd::seq_lib::group_to_multiset_ensures;

    if sorted[a]@ != sorted[b]@ {
        return ;
    }
    let n = sorted[a]@;
    let vs = view_of_names(sorted);
    let vo = view_of_names(orig);
    assert(vs[a] == n && vs[b] == n);
    assert(vs.remove(b).to_multiset() =~= vs.to_multiset().remove(n)) by {
        vstd::seq_lib::to_multiset_remove(vs, b);
    }
    assert(vs.remove(b)[a] == n);
    assert(vs.remove(b).contains(n));
    assert(vs.to_multiset().remove(n).count(n) > 0);
    assert(vs.to_multiset().count(n) >= 2);
    assert(vo.to_multiset().count(n) >= 2);
    assert(vo.contains(n));
    let i = choose|i: int| 0 <= i < vo.len() && vo[i] == n;
    assert(vo.remove(i).to_multiset() =~= vo.to_multiset().remove(n)) by {
        vstd::seq_lib::to_multiset_remove(vo, i);
    }
    assert(vo.remove(i).to_multiset().count(n) > 0);
    assert(vo.remove(i).contains(n));
    let j = choose|j: int| 0 <= j < vo.remove(i).len() && vo.remove(i)[j] == n;
    let j2: int = if j < i {
        j
    } else {
        j + 1
    };
    assert(vo[j2] == n);
    assert(j2 != i);
    assert(orig[i]@ == n && orig[j2]@ == n);
    if i < j2 {
        assert(orig[i]@ != orig[j2]@);
    } else {
        assert(orig[j2]@ != orig[i]@);
    }
}


/// The query alone decides the found set: any two results that satisfy find's
/// contract for the same inputs hold exactly the same names, in the same
/// order. Asking twice returns the same set.
pub proof fn lemma_find_deterministic(r1: Seq<String>, r2: Seq<String>)
    requires
        sorted_strings(r1),
        sorted_strings(r2),
        forall|a: int, b: int|
            0 <= a < b < r1.len() ==> (#[trigger] r1[a])@ != (#[trigger] r1[b])@,
        forall|a: int, b: int|
            0 <= a < b < r2.len() ==> (#[trigger] r2[a])@ != (#[trigger] r2[b])@,
        forall|n: Seq<char>|
            #![trigger has_name(r1, n)]
            #![trigger has_name(r2, n)]
            has_name(r1, n) == has_name(r2, n),
    ensures
        view_of_names(r1) == view_of_names(r2),
    decreases r1.len(),
{
    if r1.len() == 0 {
        if r2.len() > 0 {
            assert(has_name(r2, r2[0]@));
            assert(has_name(r1, r2[0]@));
            let i = choose|i: int| 0 <= i < r1.len() && (#[trigger] r1[i])@ == r2[0]@;
            assert(false);
        }
        assert(view_of_names(r1) =~= view_of_names(r2));
    } else if r2.len() == 0 {
        assert(has_name(r1, r1[0]@));
        assert(has_name(r2, r1[0]@));
        let i = choose|i: int| 0 <= i < r2.len() && (#[trigger] r2[i])@ == r1[0]@;
        assert(false);
    } else {
        assert(has_name(r1, r1[0]@));
        assert(has_name(r2, r1[0]@));
        let i = choose|i: int| 0 <= i < r2.len() && (#[trigger] r2[i])@ == r1[0]@;
        assert(lex_le(r2[0]@, r2[i]@) || i == 0);
        assert(has_name(r2, r2[0]@));
        assert(has_name(r1, r2[0]@));
        let j = choose|j: int| 0 <= j < r1.len() && (#[trigger] r1[j])@ == r2[0]@;
        assert(lex_le(r1[0]@, r1[j]@) || j == 0);
        crate::text::lemma_lex_le_total(r1[0]@, r2[0]@);
        lemma_lex_antisymmetric(r1[0]@, r2[0]@);
        if i > 0 {
            crate::text::lemma_lex_le_trans(r2[0]@, r1[0]@, r1[0]@);
        }
        assert(r1[0]@ == r2[0]@) by {
            if j > 0 {
                assert(lex_le(r1[0]@, r2[0]@));
            }
            if i > 0 {
                assert(lex_le(r2[0]@, r1[0]@));
            }
            if i == 0 {
                assert(r2[0]@ == r1[0]@);
            } else if j == 0 {
                assert(r1[0]@ == r2[0]@);
            } else {
                lemma_lex_antisymmetric(r1[0]@, r2[0]@);
            }
        }
        let t1 = r1.drop_first();
        let t2 = r2.drop_first();
        assert(forall|x: int| 0 <= x < t1.len() ==> #[trigger] t1[x] == r1[x + 1]);
        assert(forall|x: int| 0 <= x < t2.len() ==> #[trigger] t2[x] == r2[x + 1]);
        assert forall|n: Seq<char>| #[trigger] has_name(t1, n) == has_name(t2, n) by {
            lemma_tail_membership(r1, n);
            lemma_tail_membership(r2, n);
        }
        lemma_find_deterministic(t1, t2);
        assert(view_of_names(t1).len() == view_of_names(t2).len());
        assert(r1.len() == r2.len());
        assert forall|x: int|
            0 <= x < r1.len() implies #[trigger] view_of_names(r1)[x] == view_of_names(r2)[
            x
        ] by {
            if x == 0 {
                assert(view_of_names(r1)[0] == r1[0]@);
                assert(view_of_names(r2)[0] == r2[0]@);
            } else {
                assert(view_of_names(t1)[x - 1] == view_of_names(t2)[x - 1]);
                assert(view_of_names(t1)[x - 1] == t1[x - 1]@);
                assert(t1[x - 1] == r1[x]);
                assert(view_of_names(t2)[x - 1] == t2[x - 1]@);
                assert(t2[x - 1] == r2[x]);
            }
        }
        assert(view_of_names(r1) =~= view_of_names(r2));
    }
}

proof fn lemma_lex_antisymmetric(a: Seq<char>, b: Seq<char>)
    requires
        lex_le(a, b),
        lex_le(b, a),
    ensures
        a == b,
    decreases a.len(),
{
    if a.len() == 0 {
        assert(b.len() == 0);
        assert(a =~= b);
    } else {
        assert(b.len() != 0);
        if a[0] == b[0] {
            lemma_lex_antisymmetric(a.skip(1), b.skip(1));
            assert(a =~= seq![a[0]] + a.skip(1));
            assert(b =~= seq![b[0]] + b.skip(1));
        }
    }
}

/// In a repeat-free vector, a name other than the head lives in the tail.
proof fn lemma_tail_membership(r: Seq<String>, n: Seq<char>)
    requires
        r.len() > 0,
        forall|x: int, y: int| 0 <= x < y < r.len() ==> (#[trigger] r[x])@ != (#[trigger] r[y])@,
    ensures
        has_name(r.drop_first(), n) == (has_name(r, n) && n != r[0]@),
{
    let t = r.drop_first();
    assert(forall|x: int| 0 <= x < t.len() ==> #[trigger] t[x] == r[x + 1]);
    if has_name(t, n) {
        let i = choose|i: int| 0 <= i < t.len() && (#[trigger] t[i])@ == n;
        assert(r[i + 1]@ == n);
        assert(r[0]@ != r[i + 1]@);
    }
    if has_name(r, n) && n != r[0]@ {
        let i = choose|i: int| 0 <= i < r.len() && (#[trigger] r[i])@ == n;
        assert(i > 0);
        assert(t[i - 1]@ == n);
    }
}

} // verus!
