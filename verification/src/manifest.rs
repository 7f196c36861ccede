use vstd::prelude::*;

verus! {

/// Operating systems a path template may be constrained to.
#[derive(Clone, Copy, PartialEq, Eq, Structural, Debug)]
pub enum Os {
    Windows,
    Linux,
    Mac,
    Any,
}

/// Stores a path template may be constrained to.
#[derive(Clone, Copy, PartialEq, Eq, Structural, Debug)]
pub enum Store {
    Steam,
    Gog,
    Epic,
    Heroic,
    Uplay,
    Origin,
    Microsoft,
    Other,
    Any,
}

/// One constraint on a file template: it applies only under this OS and store.
#[derive(Clone, Copy, PartialEq, Eq, Structural, Debug)]
pub struct FileConstraint {
    pub os: Os,
    pub store: Store,
}

/// A save-path template of a catalog entry, with the constraints under which
/// it applies; no constraint means it always applies.
#[derive(Clone)]
pub struct FileEntry {
    pub template: String,
    pub when: Vec<FileConstraint>,
}

/// One game's catalog entry: path templates, registry key templates, store
/// ids, and alternative install-directory names.
#[derive(Clone)]
pub struct Game {
    pub files: Vec<FileEntry>,
    pub registry: Vec<String>,
    pub steam_id: Option<u32>,
    pub gog_id: Option<u32>,
    pub install_dirs: Vec<String>,
}

/// The catalog: a mapping from canonical game name to its entry, with names
/// unique.
pub struct Manifest {
    pub games: Vec<(String, Game)>,
}

impl Manifest {
    /// Names are unique: the catalog is a mapping.
    pub open spec fn wf(self) -> bool {
        forall|i: int, j: int|
            0 <= i < j < self.games.len() ==> (#[trigger] self.games[i].0)@ != (
            #[trigger] self.games[j].0)@
    }

    pub open spec fn spec_names(self) -> Seq<String> {
        self.games@.map_values(|e: (String, Game)| e.0)
    }

    pub open spec fn has_game(self, n: Seq<char>) -> bool {
        exists|i: int| 0 <= i < self.games.len() && (#[trigger] self.games[i].0)@ == n
    }

    /// The entry index of a name, if present.
    pub open spec fn index_of(self, n: Seq<char>) -> int {
        choose|i: int| 0 <= i < self.games.len() && (#[trigger] self.games[i].0)@ == n
    }

    /// The name carrying a given Steam id, taking the last catalog entry when
    /// several share the id.
    pub open spec fn steam_lookup(games: Seq<(String, Game)>, id: u32) -> Option<String>
        decreases games.len(),
    {
        if games.len() == 0 {
            None
        } else if games.last().1.steam_id == Some(id) {
            Some(games.last().0)
        } else {
            Self::steam_lookup(games.drop_last(), id)
        }
    }

    pub fn new() -> (r: Manifest)
        ensures
            r.wf(),
            r.games@.len() == 0,
    {
        Manifest { games: Vec::new() }
    }

    /// All canonical names, in catalog order.
    pub fn game_names(&self) -> (r: Vec<String>)
        ensures
            r@ == self.spec_names(),
    {
        let mut r: Vec<String> = Vec::new();
        let mut i: usize = 0;
        while i < self.games.len()
            invariant
                0 <= i <= self.games.len(),
                r@ == self.spec_names().take(i as int),
        decreases self.games.len() - i,
        {
            r.push(self.games[i].0.clone());
            proof {
                assert(r@ =~= self.spec_names().take(i + 1));
            }
            i = i + 1;
        }
        proof {
            assert(r@ =~= self.spec_names());
        }
        r
    }

    /// Looks a name up in the catalog.
    pub fn lookup(&self, name: &String) -> (r: Option<&Game>)
        requires
            self.wf(),
        ensures
            r is Some <==> self.has_game(name@),
            r matches Some(g) ==> exists|i: int|
                0 <= i < self.games.len() && (#[trigger] self.games[i].0)@ == name@
                    && self.games[i].1 == *g,
    {
        let mut i: usize = 0;
        while i < self.games.len()
            invariant
                0 <= i <= self.games.len(),
                forall|j: int| 0 <= j < i ==> (#[trigger] self.games@[j].0)@ != name@,
            decreases self.games.len() - i,
        {
            if crate::text::str_eq(&self.games[i].0, name) {
                return Some(&self.games[i].1);
            }
            i = i + 1;
        }
        None
    }

    /// The name registered for a Steam id, if any.
    pub fn steam_name(&self, id: u32) -> (r: Option<String>)
        ensures
            r == Self::steam_lookup(self.games@, id),
    {
        let mut i: usize = self.games.len();
        proof {
            assert(self.games@.take(self.games@.len() as int) =~= self.games@);
        }
        while i > 0
            invariant
                0 <= i <= self.games.len(),
                Self::steam_lookup(self.games@, id) == Self::steam_lookup(
                    self.games@.take(i as int),
                    id,
                ),
            decreases i,
        {
            i = i - 1;
            let matches_id = match &self.games[i].1.steam_id {
                Some(s) => *s == id,
                None => false,
            };
            proof {
                assert(self.games@.take(i + 1).last() == self.games@[i as int]);
                assert(self.games@.take(i + 1).drop_last() =~= self.games@.take(i as int));
            }
            if matches_id {
                return Some(self.games[i].0.clone());
            }
        }
        proof {
            assert(self.games@.take(0int) =~= Seq::<(String, Game)>::empty());
        }
        None
    }

    /// Adds an entry, or replaces the entry of the same name: how
    /// user-supplied extension entries augment the catalog.
    pub fn upsert(self, name: String, game: Game) -> (r: Manifest)
        requires
            self.wf(),
        ensures
            r.wf(),
            r.has_game(name@),
            forall|n: Seq<char>| r.has_game(n) <==> self.has_game(n) || n == name@,
            forall|i: int|
                0 <= i < r.games.len() && (#[trigger] r.games[i].0)@ == name@ ==> r.games[i].1
                    == game,
            forall|i: int|
                0 <= i < r.games.len() && (#[trigger] r.games[i].0)@ != name@ ==> exists|j: int|
                    0 <= j < self.games.len() && self.games[j] == r.games[i],
    {
        let ghost orig = self;
        let mut m = self;
        let ghost nv = name@;
        let found = find_name_index(&m.games, &name);
        match found {
            Some(i) => {
                let ghost oldg = m.games@;
                proof {
                    assert(oldg[i as int].0@ == nv);
                }
                let _ = m.games.remove(i);
                m.games.insert(i, (name, game));
                proof {
                    assert(m.games@ =~= oldg.update(i as int, (name, game)));
                    assert(m.games@[i as int].0@ == nv);
                    assert(m.has_game(nv));
                    assert forall|a: int, b: int| 0 <= a < b < m.games.len() implies (
                    #[trigger] m.games[a].0)@ != (#[trigger] m.games[b].0)@ by {
                        if a != i && b != i {
                            assert(m.games@[a] == oldg[a]);
                            assert(m.games@[b] == oldg[b]);
                        } else if a == i {
                            assert(m.games@[b] == oldg[b]);
                            assert(oldg[i as int].0@ != oldg[b].0@);
                        } else {
                            assert(m.games@[a] == oldg[a]);
                            assert(oldg[a].0@ != oldg[i as int].0@);
                        }
                    }
                    assert forall|n: Seq<char>| m.has_game(n) implies orig.has_game(n) || n
                        == nv by {
                        let k = choose|k: int|
                            0 <= k < m.games.len() && (#[trigger] m.games[k].0)@ == n;
                        if k != i {
                            assert(oldg[k].0@ == n);
                        }
                    }
                    assert forall|n: Seq<char>| orig.has_game(n) implies m.has_game(n) by {
                        let k = choose|k: int|
                            0 <= k < oldg.len() && (#[trigger] oldg[k].0)@ == n;
                        if k == i {
                            assert(m.games@[i as int].0@ == n);
                        } else {
                            assert(m.games@[k].0@ == n);
                        }
                    }
                }
            },
            None => {
                let ghost oldg = m.games@;
                m.games.push((name, game));
                proof {
                    assert(m.games@[m.games@.len() - 1].0@ == nv);
                    assert(m.has_game(nv));
                    assert forall|a: int, b: int| 0 <= a < b < m.games.len() implies (
                    #[trigger] m.games[a].0)@ != (#[trigger] m.games[b].0)@ by {
                        if b < m.games.len() - 1 {
                            assert(m.games@[a] == oldg[a]);
                            assert(m.games@[b] == oldg[b]);
                        } else {
                            assert(m.games@[a] == oldg[a]);
                        }
                    }
                    assert forall|n: Seq<char>| m.has_game(n) implies orig.has_game(n) || n
                        == nv by {
                        let k = choose|k: int|
                            0 <= k < m.games.len() && (#[trigger] m.games[k].0)@ == n;
                        if k < m.games.len() - 1 {
                            assert(oldg[k].0@ == n);
                        }
                    }
                    assert forall|n: Seq<char>| orig.has_game(n) implies m.has_game(n) by {
                        let k = choose|k: int|
                            0 <= k < oldg.len() && (#[trigger] oldg[k].0)@ == n;
                        assert(m.games@[k].0@ == n);
                    }
                }
            },
        }
        m
    }
}

/// The entry a list of custom games supplies for a name: the last one wins.
pub open spec fn custom_game_for(customs: Seq<(String, Game)>, n: Seq<char>) -> Option<Game>
    decreases customs.len(),
{
    if customs.len() == 0 {
        None
    } else if customs.last().0@ == n {
        Some(customs.last().1)
    } else {
        custom_game_for(customs.drop_last(), n)
    }
}

impl Manifest {
    /// Folds user-supplied custom entries into the catalog, each added or
    /// replacing the entry of its name: afterwards a name is present exactly
    /// when it was known or supplied, every supplied name carries its last
    /// supplied entry, and every other entry is one of the original catalog.
    pub fn incorporate_extensions(self, custom_games: Vec<(String, Game)>) -> (r: Manifest)
        requires
            self.wf(),
        ensures
            r.wf(),
            forall|n: Seq<char>|
                #[trigger] r.has_game(n) <==> self.has_game(n) || custom_game_for(
                    custom_games@,
                    n,
                ) is Some,
            forall|i: int|
                0 <= i < r.games.len() ==> (custom_game_for(
                    custom_games@,
                    (#[trigger] r.games[i]).0@,
                ) matches Some(g) ==> r.games[i].1 == g),
            forall|i: int|
                0 <= i < r.games.len() && custom_game_for(
                    custom_games@,
                    (#[trigger] r.games[i]).0@,
                ) is None ==> exists|j: int|
                    0 <= j < self.games.len() && self.games[j] == r.games[i],
    {
        let ghost base = self;
        let ghost orig = custom_games@;
        let mut m = self;
        let mut rest = custom_games;
        proof {
            assert(orig.take(0int) =~= Seq::<(String, Game)>::empty());
        }
        while rest.len() > 0
            invariant
                m.wf(),
                rest@.len() <= orig.len(),
                rest@ == orig.skip(orig.len() - rest@.len()),
                forall|n: Seq<char>|
                    #[trigger] m.has_game(n) <==> base.has_game(n) || custom_game_for(
                        orig.take(orig.len() - rest@.len()),
                        n,
                    ) is Some,
                forall|i: int|
                    0 <= i < m.games.len() ==> (custom_game_for(
                        orig.take(orig.len() - rest@.len()),
                        (#[trigger] m.games[i]).0@,
                    ) matches Some(g) ==> m.games[i].1 == g),
                forall|i: int|
                    0 <= i < m.games.len() && custom_game_for(
                        orig.take(orig.len() - rest@.len()),
                        (#[trigger] m.games[i]).0@,
                    ) is None ==> exists|j: int|
                        0 <= j < base.games.len() && base.games[j] == m.games[i],
            decreases rest@.len(),
        {
            let ghost k = orig.len() - rest@.len();
            let ghost before = m;
            let entry = rest.remove(0);
            proof {
                assert(entry == orig[k]);
                assert(rest@ =~= orig.skip(orig.len() - rest@.len()));
            }
            m = m.upsert(entry.0, entry.1);
            proof {
                assert(orig.take(k + 1).drop_last() =~= orig.take(k));
                assert(orig.take(k + 1).last() == orig[k]);
                assert forall|n: Seq<char>|
                    #[trigger] m.has_game(n) <==> base.has_game(n) || custom_game_for(
                        orig.take(k + 1),
                        n,
                    ) is Some by {
                    assert(m.has_game(n) <==> before.has_game(n) || n == orig[k].0@);
                }
                assert forall|i: int|
                    0 <= i < m.games.len() implies ((custom_game_for(
                    orig.take(k + 1),
                    (#[trigger] m.games[i]).0@,
                ) matches Some(g) ==> m.games[i].1 == g) && (custom_game_for(
                    orig.take(k + 1),
                    m.games[i].0@,
                ) is None ==> exists|j: int|
                    0 <= j < base.games.len() && base.games[j] == m.games[i])) by {
                    if m.games[i].0@ == orig[k].0@ {
                        assert(m.games[i].1 == orig[k].1);
                    } else {
                        let j = choose|j: int|
                            0 <= j < before.games.len() && before.games[j] == m.games[i];
                        assert(before.games[j] == m.games[i]);
                        assert(custom_game_for(orig.take(k + 1), m.games[i].0@)
                            == custom_game_for(orig.take(k), before.games[j].0@));
                        if custom_game_for(orig.take(k), before.games[j].0@) is None {
                            let j2 = choose|j2: int|
                                0 <= j2 < base.games.len() && base.games[j2] == before.games[j];
                            assert(base.games[j2] == m.games[i]);
                        }
                    }
                }
            }
        }
        proof {
            assert(orig.take(orig.len() as int) =~= orig);
        }
        m
    }
}

/// Whether a constraint admits an OS and a store: a side admits a value it
/// names, and `Any` admits everything, on either side.
pub open spec fn constraint_allows(c: FileConstraint, os: Os, store: Store) -> bool {
    &&& (c.os == os || c.os is Any || os is Any)
    &&& (c.store == store || c.store is Any || store is Any)
}

/// Whether a file template applies under an OS and store: unconstrained
/// templates always apply, constrained ones when some constraint admits the
/// pair.
pub open spec fn entry_applies(e: FileEntry, os: Os, store: Store) -> bool {
    e.when@.len() == 0 || exists|i: int|
        0 <= i < e.when@.len() && constraint_allows(#[trigger] e.when@[i], os, store)
}

/// The templates of a game that apply under an OS and store, in order.
pub open spec fn applicable_view(files: Seq<FileEntry>, os: Os, store: Store) -> Seq<Seq<char>>
    decreases files.len(),
{
    if files.len() == 0 {
        Seq::empty()
    } else {
        let prev = applicable_view(files.drop_last(), os, store);
        if entry_applies(files.last(), os, store) {
            prev.push(files.last().template@)
        } else {
            prev
        }
    }
}

fn constraint_allows_exec(c: &FileConstraint, os: Os, store: Store) -> (r: bool)
    ensures
        r == constraint_allows(*c, os, store),
{
    let os_ok = c.os == os || matches!(c.os, Os::Any) || matches!(os, Os::Any);
    let store_ok = c.store == store || matches!(c.store, Store::Any) || matches!(
        store,
        Store::Any,
    );
    os_ok && store_ok
}

fn entry_applies_exec(e: &FileEntry, os: Os, store: Store) -> (r: bool)
    ensures
        r == entry_applies(*e, os, store),
{
    if e.when.len() == 0 {
        return true;
    }
    let mut i: usize = 0;
    while i < e.when.len()
        invariant
            0 <= i <= e.when@.len(),
            forall|j: int| 0 <= j < i ==> !constraint_allows(#[trigger] e.when@[j], os, store),
        decreases e.when@.len() - i,
    {
        if constraint_allows_exec(&e.when[i], os, store) {
            return true;
        }
        i = i + 1;
    }
    false
}

impl Game {
    /// Selects the save-path templates that apply under an OS and store, as
    /// the scan expands them.
    pub fn applicable_templates(&self, os: Os, store: Store) -> (r: Vec<String>)
        ensures
            crate::text::view_of_names(r@) == applicable_view(self.files@, os, store),
    {
        let mut r: Vec<String> = Vec::new();
        let mut i: usize = 0;
        proof {
            assert(crate::text::view_of_names(r@) =~= applicable_view(
                self.files@.take(0int),
                os,
                store,
            ));
        }
        while i < self.files.len()
            invariant
                0 <= i <= self.files@.len(),
                crate::text::view_of_names(r@) == applicable_view(
                    self.files@.take(i as int),
                    os,
                    store,
                ),
            decreases self.files@.len() - i,
        {
            proof {
                assert(self.files@.take(i + 1).drop_last() =~= self.files@.take(i as int));
                assert(self.files@.take(i + 1).last() == self.files@[i as int]);
            }
            let ghost before = r@;
            if entry_applies_exec(&self.files[i], os, store) {
                r.push(self.files[i].template.clone());
                proof {
                    assert(crate::text::view_of_names(r@) =~= crate::text::view_of_names(
                        before,
                    ).push(self.files@[i as int].template@));
                }
            }
            i = i + 1;
        }
        proof {
            assert(self.files@.take(self.files@.len() as int) =~= self.files@);
        }
        r
    }
}

/// The index of a name among catalog entries, if present.
fn find_name_index(v: &Vec<(String, Game)>, n: &String) -> (r: Option<usize>)
    ensures
        r matches Some(i) ==> 0 <= i < v@.len() && v@[i as int].0@ == n@,
        r is None ==> forall|j: int| 0 <= j < v@.len() ==> (#[trigger] v@[j].0)@ != n@,
{
    let mut i: usize = 0;
    while i < v.len()
        invariant
            0 <= i <= v.len(),
            forall|j: int| 0 <= j < i ==> (#[trigger] v@[j].0)@ != n@,
        decreases v.len() - i,
    {
        if crate::text::str_eq(&v[i].0, n) {
            return Some(i);
        }
        i = i + 1;
    }
    None
}

} // verus!