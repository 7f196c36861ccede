use vstd::prelude::*;

use crate::manifest::{Game, Manifest};
use crate::text::{
    all_digits, contains_name, dec_val, has_name, parse_u32, sort_names, sorted_strings,
    view_of_names,
};

verus! {

/// Whether a set of known names (as character sequences) holds a given name.
pub open spec fn name_set_has(known: Seq<Seq<char>>, n: Seq<char>) -> bool {
    exists|i: int| 0 <= i < known.len() && #[trigger] known[i] == n
}

/// The name a Steam id maps to, as a character sequence.
pub open spec fn steam_lookup_name(games: Seq<(String, Game)>, id: u32) -> Option<Seq<char>> {
    match Manifest::steam_lookup(games, id) {
        Some(s) => Some(s@),
        None => None,
    }
}

/// The known name a requested string resolves to under Steam-id lookup: the
/// string must be a decimal Steam id carried by a catalog entry whose name is
/// itself known.
pub open spec fn steam_mapped(m: Manifest, known: Seq<Seq<char>>, g: Seq<char>) -> Option<
    Seq<char>,
> {
    if g.len() > 0 && all_digits(g) && dec_val(g) <= u32::MAX {
        match steam_lookup_name(m.games@, dec_val(g) as u32) {
            Some(n) => if name_set_has(known, n) {
                Some(n)
            } else {
                None
            },
            None => None,
        }
    } else {
        None
    }
}

/// Splits requested names into the valid ones (resolved against the known
/// set, by name or by Steam id) and the invalid rest, in request order.
pub open spec fn classify_requested(
    known: Seq<Seq<char>>,
    requested: Seq<Seq<char>>,
    by_steam_id: bool,
    m: Manifest,
) -> (Seq<Seq<char>>, Seq<Seq<char>>)
    decreases requested.len(),
{
    if requested.len() == 0 {
        (Seq::empty(), Seq::empty())
    } else {
        let prev = classify_requested(known, requested.drop_last(), by_steam_id, m);
        let g = requested.last();
        if by_steam_id {
            match steam_mapped(m, known, g) {
                Some(n) => (prev.0.push(n), prev.1),
                None => (prev.0, prev.1.push(g)),
            }
        } else {
            if name_set_has(known, g) {
                (prev.0.push(g), prev.1)
            } else {
                (prev.0, prev.1.push(g))
            }
        }
    }
}

/// The subjects of an operation: requested names classified against the known
/// set, or the whole known set when nothing was requested.
pub open spec fn spec_subjects(
    known: Seq<Seq<char>>,
    requested: Seq<Seq<char>>,
    by_steam_id: bool,
    m: Manifest,
) -> (Seq<Seq<char>>, Seq<Seq<char>>) {
    if requested.len() == 0 {
        (known, Seq::empty())
    } else {
        classify_requested(known, requested, by_steam_id, m)
    }
}

/// The games an operation will touch: the requested names that resolved, and
/// those that did not, each sorted.
pub struct GameSubjects {
    pub valid: Vec<String>,
    pub invalid: Vec<String>,
}

pub proof fn lemma_has_name_views(v: Seq<String>, n: Seq<char>)
    ensures
        has_name(v, n) == name_set_has(view_of_names(v), n),
{
    if has_name(v, n) {
        let i = choose|i: int| 0 <= i < v.len() && (#[trigger] v[i])@ == n;
        assert(view_of_names(v)[i] == n);
    }
    if name_set_has(view_of_names(v), n) {
        let i = choose|i: int| 0 <= i < view_of_names(v).len() && #[trigger] view_of_names(v)[i]
            == n;
        assert(v[i]@ == n);
    }
}

impl GameSubjects {
    /// Resolves the requested names against the known set: with no request,
    /// every known name is a subject; otherwise each requested name is taken
    /// by itself, or through its Steam id when asked, and the ones that
    /// resolve to nothing known are reported invalid. Both sides come out
    /// sorted.
    pub fn new(
        known: Vec<String>,
        requested: Vec<String>,
        by_steam_id: bool,
        manifest: &Manifest,
    ) -> (r: GameSubjects)
        ensures
            sorted_strings(r.valid@),
            sorted_strings(r.invalid@),
            view_of_names(r.valid@).to_multiset() == spec_subjects(
                view_of_names(known@),
                view_of_names(requested@),
                by_steam_id,
                *manifest,
            ).0.to_multiset(),
            view_of_names(r.invalid@).to_multiset() == spec_subjects(
                view_of_names(known@),
                view_of_names(requested@),
                by_steam_id,
                *manifest,
            ).1.to_multiset(),
    {
        let ghost known_v = view_of_names(known@);
        let ghost requested_v = view_of_names(requested@);
        let mut valid: Vec<String> = Vec::new();
        let mut invalid: Vec<String> = Vec::new();
        if requested.len() == 0 {
            valid = known;
            proof {
                assert(view_of_names(invalid@) =~= Seq::<Seq<char>>::empty());
                assert(spec_subjects(known_v, requested_v, by_steam_id, *manifest).1
                    =~= Seq::<Seq<char>>::empty());
            }
        } else {
            let mut i: usize = 0;
            proof {
                assert(requested_v.take(0int) =~= Seq::<Seq<char>>::empty());
                assert(view_of_names(valid@) =~= Seq::<Seq<char>>::empty());
                assert(view_of_names(invalid@) =~= Seq::<Seq<char>>::empty());
            }
            while i < requested.len()
                invariant
                    0 <= i <= requested.len(),
                    known_v == view_of_names(known@),
                    requested_v == view_of_names(requested@),
                    requested_v.len() == requested@.len(),
                    view_of_names(valid@) == classify_requested(
                        known_v,
                        requested_v.take(i as int),
                        by_steam_id,
                        *manifest,
                    ).0,
                    view_of_names(invalid@) == classify_requested(
                        known_v,
                        requested_v.take(i as int),
                        by_steam_id,
                        *manifest,
                    ).1,
                decreases requested.len() - i,
            {
                let g = requested[i].clone();
                proof {
                    assert(requested_v.take(i + 1).drop_last() =~= requested_v.take(i as int));
                    assert(requested_v.take(i + 1).last() == requested@[i as int]@);
                    assert(g@ == requested_v.take(i + 1).last());
                }
                let ghost prev_valid = valid@;
                let ghost prev_invalid = invalid@;
                if by_steam_id {
                    let mut resolved: Option<String> = None;
                    match parse_u32(&g) {
                        Some(id) => {
                            proof {
                                assert(dec_val(g@) == id);
                            }
                            match manifest.steam_name(id) {
                                Some(n) => {
                                    if contains_name(&known, &n) {
                                        proof {
                                            lemma_has_name_views(known@, n@);
                                        }
                                        resolved = Some(n);
                                    } else {
                                        proof {
                                            lemma_has_name_views(known@, n@);
                                        }
                                    }
                                },
                                None => {},
                            }
                        },
                        None => {},
                    }
                    match resolved {
                        Some(n) => {
                            proof {
                                assert(steam_mapped(*manifest, known_v, g@) == Some(n@));
                            }
                            valid.push(n);
                            proof {
                                assert(view_of_names(valid@) =~= view_of_names(prev_valid).push(
                                    n@,
                                ));
                            }
                        },
                        None => {
                            proof {
                                assert(steam_mapped(*manifest, known_v, g@) is None);
                            }
                            invalid.push(g);
                            proof {
                                assert(view_of_names(invalid@) =~= view_of_names(
                                    prev_invalid,
                                ).push(requested@[i as int]@));
                            }
                        },
                    }
                } else {
                    if contains_name(&known, &g) {
                        proof {
                            lemma_has_name_views(known@, g@);
                        }
                        valid.push(g);
                        proof {
                            assert(view_of_names(valid@) =~= view_of_names(prev_valid).push(
                                requested@[i as int]@,
                            ));
                        }
                    } else {
                        proof {
                            lemma_has_name_views(known@, g@);
                        }
                        invalid.push(g);
                        proof {
                            assert(view_of_names(invalid@) =~= view_of_names(prev_invalid).push(
                                requested@[i as int]@,
                            ));
                        }
                    }
                }
                i = i + 1;
            }
            proof {
                assert(requested_v.take(requested@.len() as int) =~= requested_v);
            }
        }
        let valid = sort_names(valid);
        let invalid = sort_names(invalid);
        GameSubjects { valid, invalid }
    }
}

} // verus!
