use vstd::prelude::*;

verus! {

/// What kind of resource a duplicate key names.
#[derive(Clone, Copy, PartialEq, Eq, Structural, Debug)]
pub enum ItemKind {
    File,
    Registry,
}

/// The resources one game contributed to the reverse index.
pub struct GameEntry {
    pub game: String,
    pub enabled: bool,
    pub files: Vec<String>,
    pub registry: Vec<String>,
}

/// A reverse index from resource keys to the games that claim them, built by
/// feeding it one game at a time.
pub struct DuplicateDetector {
    pub entries: Vec<GameEntry>,
}

/// Whether a game entry claims a key.
pub open spec fn entry_claims(e: GameEntry, kind: ItemKind, key: Seq<char>) -> bool {
    match kind {
        ItemKind::File => crate::text::has_name(e.files@, key),
        ItemKind::Registry => crate::text::has_name(e.registry@, key),
    }
}

/// The set of game names that claim a key and count toward collisions.
pub open spec fn claimants(entries: Seq<GameEntry>, kind: ItemKind, key: Seq<char>) -> Set<
    Seq<char>,
> {
    Set::new(
        |g: Seq<char>|
            exists|i: int|
                0 <= i < entries.len() && (#[trigger] entries[i]).game@ == g && entries[i].enabled
                    && entry_claims(entries[i], kind, key),
    )
}

/// A key collides when more than one distinct enabled game claims it.
pub open spec fn is_collision(entries: Seq<GameEntry>, kind: ItemKind, key: Seq<char>) -> bool {
    exists|a: Seq<char>, b: Seq<char>|
        a != b && #[trigger] claimants(entries, kind, key).contains(a) && #[trigger] claimants(
            entries,
            kind,
            key,
        ).contains(b)
}

impl DuplicateDetector {
    pub fn new() -> (r: DuplicateDetector)
        ensures
            r.entries@.len() == 0,
    {
        DuplicateDetector { entries: Vec::new() }
    }

    /// Feeds one game's scanned resources to the index.
    pub fn add_game(&mut self, entry: GameEntry)
        ensures
            final(self).entries@ == old(self).entries@.push(entry),
    {
        self.entries.push(entry);
    }

    /// Whether a key is claimed by more than one enabled game.
    pub fn is_duplicated(&self, kind: ItemKind, key: &String) -> (r: bool)
        ensures
            r == is_collision(self.entries@, kind, key@),
    {
        let mut first: Option<&String> = None;
        let mut i: usize = 0;
        while i < self.entries.len()
            invariant
                0 <= i <= self.entries@.len(),
                match first {
                    Some(g) => {
                        &&& claimants(self.entries@, kind, key@).contains(g@)
                        &&& forall|a: int|
                            0 <= a < i && (#[trigger] self.entries@[a]).enabled && entry_claims(
                                self.entries@[a],
                                kind,
                                key@,
                            ) ==> self.entries@[a].game@ == g@
                    },
                    None => forall|a: int|
                        0 <= a < i ==> !((#[trigger] self.entries@[a]).enabled && entry_claims(
                            self.entries@[a],
                            kind,
                            key@,
                        )),
                },
            decreases self.entries@.len() - i,
        {
            let e = &self.entries[i];
            let claims = if e.enabled {
                match kind {
                    ItemKind::File => crate::text::contains_name(&e.files, key),
                    ItemKind::Registry => crate::text::contains_name(&e.registry, key),
                }
            } else {
                false
            };
            if claims {
                proof {
                    assert(entry_claims(self.entries@[i as int], kind, key@));
                    assert(claimants(self.entries@, kind, key@).contains(
                        self.entries@[i as int].game@,
                    ));
                }
                match first {
                    Some(g) => {
                        if !crate::text::str_eq(g, &e.game) {
                            proof {
                                assert(is_collision(self.entries@, kind, key@));
                            }
                            return true;
                        }
                    },
                    None => {
                        first = Some(&e.game);
                    },
                }
            }
            i = i + 1;
        }
        proof {
            if is_collision(self.entries@, kind, key@) {
                let (a, b) = choose|a: Seq<char>, b: Seq<char>|
                    a != b && #[trigger] claimants(self.entries@, kind, key@).contains(a)
                        && #[trigger] claimants(self.entries@, kind, key@).contains(b);
                let ia = choose|ia: int|
                    0 <= ia < self.entries@.len() && (#[trigger] self.entries@[ia]).game@ == a
                        && self.entries@[ia].enabled && entry_claims(
                        self.entries@[ia],
                        kind,
                        key@,
                    );
                let ib = choose|ib: int|
                    0 <= ib < self.entries@.len() && (#[trigger] self.entries@[ib]).game@ == b
                        && self.entries@[ib].enabled && entry_claims(
                        self.entries@[ib],
                        kind,
                        key@,
                    );
                match first {
                    Some(g) => {
                        assert(self.entries@[ia].game@ == g@);
                        assert(self.entries@[ib].game@ == g@);
                        assert(false);
                    },
                    None => {
                        assert(false);
                    },
                }
            }
        }
        false
    }
}

/// The collision verdicts depend only on which games claim which keys, never
/// on the order in which games were fed to the detector: any permutation of
/// the entries yields the same claimant set and so the same collisions.
pub proof fn lemma_duplicates_order_invariant(
    e1: Seq<GameEntry>,
    e2: Seq<GameEntry>,
    kind: ItemKind,
    key: Seq<char>,
)
    requires
        e1.to_multiset() == e2.to_multiset(),
    ensures
        claimants(e1, kind, key) == claimants(e2, kind, key),
        is_collision(e1, kind, key) == is_collision(e2, kind, key),
{
    broadcast use vstd::seq_lib::group_to_multiset_ensures;

    assert forall|g: Seq<char>|
        claimants(e1, kind, key).contains(g) == #[trigger] claimants(e2, kind, key).contains(
        g,
    ) by {
        if claimants(e1, kind, key).contains(g) {
            let i = choose|i: int|
                0 <= i < e1.len() && (#[trigger] e1[i]).game@ == g && e1[i].enabled
                    && entry_claims(e1[i], kind, key);
            assert(e1.to_multiset().count(e1[i]) > 0);
            assert(e2.to_multiset().count(e1[i]) > 0);
            assert(e2.contains(e1[i]));
            let j = choose|j: int| 0 <= j < e2.len() && e2[j] == e1[i];
            assert((#[trigger] e2[j]).game@ == g && e2[j].enabled && entry_claims(
                e2[j],
                kind,
                key,
            ));
        }
        if claimants(e2, kind, key).contains(g) {
            let i = choose|i: int|
                0 <= i < e2.len() && (#[trigger] e2[i]).game@ == g && e2[i].enabled
                    && entry_claims(e2[i], kind, key);
            assert(e2.to_multiset().count(e2[i]) > 0);
            assert(e1.to_multiset().count(e2[i]) > 0);
            assert(e1.contains(e2[i]));
            let j = choose|j: int| 0 <= j < e1.len() && e1[j] == e2[i];
            assert((#[trigger] e1[j]).game@ == g && e1[j].enabled && entry_claims(
                e1[j],
                kind,
                key,
            ));
        }
    }
    assert(claimants(e1, kind, key) =~= claimants(e2, kind, key));
}

} // verus!
