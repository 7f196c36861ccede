use vstd::prelude::*;

verus! {

/// How a scanned file relates to the previous backup of the same logical
/// path.
#[derive(Clone, Copy, PartialEq, Eq, Structural, Debug)]
pub enum ScanChange {
    New,
    Different,
    Same,
    Unknown,
    Removed,
}

/// One file discovered by a scan: its logical path (the backup key), its
/// bytes, how it changed, and whether the user toggled it off.
pub struct ScannedFile {
    pub path: String,
    pub content: Vec<u8>,
    pub change: ScanChange,
    pub ignored: bool,
    pub redirected_from: Option<String>,
}

/// The outcome of scanning one game.
pub struct ScanInfo {
    pub game_name: String,
    pub found_files: Vec<ScannedFile>,
}

/// The live save state a scan describes: logical path to bytes, leaving out
/// ignored entries and files that are gone.
pub open spec fn live_map(files: Seq<ScannedFile>) -> Map<Seq<char>, Seq<u8>>
    decreases files.len(),
{
    if files.len() == 0 {
        Map::empty()
    } else {
        let prev = live_map(files.drop_last());
        let f = files.last();
        if f.ignored || f.change is Removed {
            prev
        } else {
            prev.insert(f.path@, f.content@)
        }
    }
}

/// Scanned paths are keys: no logical path occurs twice.
pub open spec fn unique_paths(files: Seq<ScannedFile>) -> bool {
    forall|i: int, j: int|
        0 <= i < j < files.len() ==> (#[trigger] files[i]).path@ != (#[trigger] files[j]).path@
}

/// Where the live state decides a key, and what it holds there.
pub proof fn lemma_live_map_lookup(files: Seq<ScannedFile>, k: Seq<char>)
    requires
        unique_paths(files),
    ensures
        live_map(files).contains_key(k) <==> exists|i: int|
            0 <= i < files.len() && (#[trigger] files[i]).path@ == k && !files[i].ignored
                && !(files[i].change is Removed),
        forall|i: int|
            0 <= i < files.len() && (#[trigger] files[i]).path@ == k && !files[i].ignored && !(
            files[i].change is Removed) ==> live_map(files).contains_key(k) && live_map(files)[k]
                == files[i].content@,
    decreases files.len(),
{
    if files.len() > 0 {
        let n = files.len() - 1;
        let prev = files.drop_last();
        lemma_live_map_lookup(prev, k);
        assert(forall|i: int| 0 <= i < n ==> #[trigger] prev[i] == files[i]);
        let f = files[n];
        let live = f.path@ == k && !f.ignored && !(f.change is Removed);
        assert forall|i: int|
            0 <= i < files.len() && (#[trigger] files[i]).path@ == k && !files[i].ignored && !(
            files[i].change is Removed) implies live_map(files).contains_key(k) && live_map(
            files,
        )[k] == files[i].content@ by {
            if i == n {
                assert(live_map(files) == live_map(prev).insert(k, f.content@));
            } else {
                assert(prev[i] == files[i]);
                assert(live_map(prev).contains_key(k) && live_map(prev)[k] == files[i].content@);
                if live {
                    assert(files[i].path@ != files[n].path@);
                }
            }
        }
        if live_map(files).contains_key(k) {
            if live {
                assert(files[n].path@ == k && !files[n].ignored && !(files[n].change is Removed));
            } else {
                assert(live_map(files) == live_map(prev) || live_map(files) == live_map(
                    prev,
                ).insert(f.path@, f.content@));
                assert(live_map(prev).contains_key(k));
                let i = choose|i: int|
                    0 <= i < prev.len() && (#[trigger] prev[i]).path@ == k && !prev[i].ignored
                        && !(prev[i].change is Removed);
                assert(files[i].path@ == k && !files[i].ignored && !(files[i].change is Removed));
            }
        }
        if exists|i: int|
            0 <= i < files.len() && (#[trigger] files[i]).path@ == k && !files[i].ignored && !(
            files[i].change is Removed) {
            assert(live_map(files).contains_key(k));
        }
    }
}


/// A user-declared relocation: what lies under the source prefix is kept
/// under its original key but placed under the target prefix on restore.
#[derive(Clone)]
pub struct RedirectRule {
    pub source: String,
    pub target: String,
}

/// Whether a path lies under a prefix.
pub open spec fn has_prefix(path: Seq<char>, prefix: Seq<char>) -> bool {
    prefix.len() <= path.len() && path.take(prefix.len() as int) == prefix
}

/// The path a rule list sends a path to: the first rule whose source is a
/// prefix rewrites it, and no rule leaves it unchanged.
pub open spec fn spec_redirect(rules: Seq<RedirectRule>, path: Seq<char>) -> Seq<char>
    decreases rules.len(),
{
    if rules.len() == 0 {
        path
    } else {
        let r = rules.first();
        if has_prefix(path, r.source@) {
            r.target@ + path.skip(r.source@.len() as int)
        } else {
            spec_redirect(rules.drop_first(), path)
        }
    }
}

/// Rewrites a path through the redirect rules: the first rule whose source
/// prefixes the path replaces that prefix with its target.
pub fn apply_redirects(rules: &Vec<RedirectRule>, path: &String) -> (r: String)
    ensures
        r@ == spec_redirect(rules@, path@),
{
    let pc = crate::text::chars_of(path.as_str());
    let mut i: usize = 0;
    proof {
        assert(rules@.skip(0int) =~= rules@);
    }
    while i < rules.len()
        invariant
            0 <= i <= rules@.len(),
            pc@ == path@,
            spec_redirect(rules@, path@) == spec_redirect(rules@.skip(i as int), path@),
        decreases rules@.len() - i,
    {
        let sc = crate::text::chars_of(rules[i].source.as_str());
        proof {
            assert(rules@.skip(i as int).first() == rules@[i as int]);
            assert(rules@.skip(i as int).drop_first() =~= rules@.skip(i + 1));
        }
        if sc.len() <= pc.len() {
            let mut m: usize = 0;
            let mut matched = true;
            while m < sc.len()
                invariant
                    0 <= m <= sc@.len(),
                    sc@.len() <= pc@.len(),
                    matched ==> forall|k: int| 0 <= k < m ==> pc@[k] == sc@[k],
                    !matched ==> !has_prefix(pc@, sc@),
                ensures
                    matched ==> forall|k: int| 0 <= k < sc@.len() ==> pc@[k] == sc@[k],
                    !matched ==> !has_prefix(pc@, sc@),
                decreases sc@.len() - m,
            {
                if pc[m] != sc[m] {
                    proof {
                        assert(pc@.take(sc@.len() as int)[m as int] != sc@[m as int]);
                    }
                    matched = false;
                    break ;
                }
                m = m + 1;
            }
            if matched {
                proof {
                    assert(pc@.take(sc@.len() as int) =~= sc@);
                    assert(has_prefix(path@, rules@[i as int].source@));
                }
                let tc = crate::text::chars_of(rules[i].target.as_str());
                let mut out = tc;
                let mut k: usize = sc.len();
                proof {
                    assert(out@ =~= rules@[i as int].target@ + path@.subrange(
                        sc@.len() as int,
                        k as int,
                    ));
                }
                while k < pc.len()
                    invariant
                        sc@.len() <= k <= pc@.len(),
                        pc@ == path@,
                        out@ == rules@[i as int].target@ + path@.subrange(
                            sc@.len() as int,
                            k as int,
                        ),
                    decreases pc@.len() - k,
                {
                    out.push(pc[k]);
                    proof {
                        assert(out@ =~= rules@[i as int].target@ + path@.subrange(
                            sc@.len() as int,
                            k + 1,
                        ));
                    }
                    k = k + 1;
                }
                proof {
                    assert(path@.subrange(sc@.len() as int, pc@.len() as int) =~= path@.skip(
                        sc@.len() as int,
                    ));
                    assert(out@ == rules@[i as int].target@ + path@.skip(
                        rules@[i as int].source@.len() as int,
                    ));
                }
                return crate::text::string_of(&out);
            }
            proof {
                assert(!has_prefix(path@, rules@[i as int].source@));
            }
        } else {
            proof {
                assert(!has_prefix(path@, rules@[i as int].source@));
            }
        }
        i = i + 1;
    }
    proof {
        assert(rules@.skip(rules@.len() as int) =~= Seq::<RedirectRule>::empty());
    }
    path.clone()
}

/// Equality of two byte vectors.
pub fn bytes_eq(a: &Vec<u8>, b: &Vec<u8>) -> (r: bool)
    ensures
        r == (a@ == b@),
{
    if a.len() != b.len() {
        return false;
    }
    let mut i: usize = 0;
    while i < a.len()
        invariant
            0 <= i <= a@.len(),
            a@.len() == b@.len(),
            forall|j: int| 0 <= j < i ==> a@[j] == b@[j],
        decreases a@.len() - i,
    {
        if a[i] != b[i] {
            return false;
        }
        i = i + 1;
    }
    proof {
        assert(a@ =~= b@);
    }
    true
}

/// How a stored file relates to what stands at its restore target now.
pub open spec fn spec_restore_change(stored: Seq<u8>, local: Option<Seq<u8>>) -> ScanChange {
    match local {
        Option::None => ScanChange::New,
        Option::Some(l) => if l == stored {
            ScanChange::Same
        } else {
            ScanChange::Different
        },
    }
}

/// Classifies one file for restoration: missing locally is new, matching
/// bytes are unchanged, anything else differs.
pub fn classify_restore_file(stored: &Vec<u8>, local: Option<&Vec<u8>>) -> (r: ScanChange)
    ensures
        r == spec_restore_change(
            stored@,
            match local {
                Option::None => Option::<Seq<u8>>::None,
                Option::Some(l) => Option::Some(l@),
            },
        ),
{
    match local {
        None => ScanChange::New,
        Some(l) => {
            if bytes_eq(l, stored) {
                ScanChange::Same
            } else {
                ScanChange::Different
            }
        },
    }
}

/// How a live file relates to the previous backup of its path.
pub open spec fn spec_backup_change(current: Seq<u8>, previous: Option<Seq<u8>>) -> ScanChange {
    match previous {
        Option::None => ScanChange::New,
        Option::Some(p) => if p == current {
            ScanChange::Same
        } else {
            ScanChange::Different
        },
    }
}

/// Classifies one live file against the previous backup: never seen is new,
/// identical bytes are unchanged, anything else differs.
pub fn classify_backup_file(current: &Vec<u8>, previous: Option<&Vec<u8>>) -> (r: ScanChange)
    ensures
        r == spec_backup_change(
            current@,
            match previous {
                Option::None => Option::<Seq<u8>>::None,
                Option::Some(p) => Option::Some(p@),
            },
        ),
{
    match previous {
        None => ScanChange::New,
        Some(p) => {
            if bytes_eq(p, current) {
                ScanChange::Same
            } else {
                ScanChange::Different
            }
        },
    }
}


/// The bytes on disk at a path, if any: the first entry decides.
pub open spec fn lookup_local(local: Seq<(String, Vec<u8>)>, p: Seq<char>) -> Option<Seq<u8>>
    decreases local.len(),
{
    if local.len() == 0 {
        None
    } else if local.first().0@ == p {
        Some(local.first().1@)
    } else {
        lookup_local(local.drop_first(), p)
    }
}

/// Finds the local bytes at a path.
fn find_local<'a>(local: &'a Vec<(String, Vec<u8>)>, p: &String) -> (r: Option<&'a Vec<u8>>)
    ensures
        r matches Some(v) ==> lookup_local(local@, p@) == Some(v@),
        r is None ==> lookup_local(local@, p@) is None,
{
    let mut i: usize = 0;
    proof {
        assert(local@.skip(0int) =~= local@);
    }
    while i < local.len()
        invariant
            0 <= i <= local@.len(),
            lookup_local(local@, p@) == lookup_local(local@.skip(i as int), p@),
        decreases local@.len() - i,
    {
        proof {
            assert(local@.skip(i as int).first() == local@[i as int]);
            assert(local@.skip(i as int).drop_first() =~= local@.skip(i + 1));
        }
        if crate::text::str_eq(&local[i].0, p) {
            return Some(&local[i].1);
        }
        i = i + 1;
    }
    proof {
        assert(local@.skip(local@.len() as int) =~= Seq::<(String, Vec<u8>)>::empty());
    }
    None
}

/// Plans the restoration of a backup: each stored file is pointed at its
/// redirected target and classified against what stands there now — new
/// where nothing does, unchanged where the bytes agree, different otherwise.
pub fn scan_for_restore(
    game_name: String,
    stored: &Vec<crate::layout::BackupFile>,
    local: &Vec<(String, Vec<u8>)>,
    rules: &Vec<RedirectRule>,
) -> (r: ScanInfo)
    ensures
        r.game_name@ == game_name@,
        r.found_files@.len() == stored@.len(),
        forall|i: int|
            0 <= i < stored@.len() ==> {
                let f = #[trigger] r.found_files@[i];
                &&& f.path@ == spec_redirect(rules@, stored@[i].path@)
                &&& f.content@ == stored@[i].content@
                &&& f.change == spec_restore_change(
                    stored@[i].content@,
                    lookup_local(local@, spec_redirect(rules@, stored@[i].path@)),
                )
                &&& !f.ignored
                &&& (f.redirected_from is Some <==> spec_redirect(rules@, stored@[i].path@)
                    != stored@[i].path@)
                &&& (f.redirected_from matches Some(orig) ==> orig@ == stored@[i].path@)
            },
{
    let mut found: Vec<ScannedFile> = Vec::new();
    let mut i: usize = 0;
    while i < stored.len()
        invariant
            0 <= i <= stored@.len(),
            found@.len() == i,
            forall|j: int|
                0 <= j < i ==> {
                    let f = #[trigger] found@[j];
                    &&& f.path@ == spec_redirect(rules@, stored@[j].path@)
                    &&& f.content@ == stored@[j].content@
                    &&& f.change == spec_restore_change(
                        stored@[j].content@,
                        lookup_local(local@, spec_redirect(rules@, stored@[j].path@)),
                    )
                    &&& !f.ignored
                    &&& (f.redirected_from is Some <==> spec_redirect(rules@, stored@[j].path@)
                        != stored@[j].path@)
                    &&& (f.redirected_from matches Some(orig) ==> orig@ == stored@[j].path@)
                },
        decreases stored@.len() - i,
    {
        let target = apply_redirects(rules, &stored[i].path);
        let change = classify_restore_file(&stored[i].content, find_local(local, &target));
        let redirected_from = if crate::text::str_eq(&target, &stored[i].path) {
            None
        } else {
            Some(stored[i].path.clone())
        };
        found.push(ScannedFile {
            path: target,
            content: stored[i].content.clone(),
            change,
            ignored: false,
            redirected_from,
        });
        i = i + 1;
    }
    ScanInfo { game_name, found_files: found }
}


/// Plain path-and-bytes pairs as a map view.
pub open spec fn pairs_view(s: Seq<(String, Vec<u8>)>) -> Seq<(Seq<char>, Seq<u8>)> {
    s.map_values(|e: (String, Vec<u8>)| (e.0@, e.1@))
}

/// Finds the stored bytes under a path.
fn find_stored<'a>(stored: &'a Vec<crate::layout::BackupFile>, p: &String) -> (r: Option<
    &'a Vec<u8>,
>)
    requires
        crate::layout::unique_keys(crate::layout::backup_files_view(stored@)),
    ensures
        r matches Some(v) ==> crate::layout::full_map(
            crate::layout::backup_files_view(stored@),
        ).contains_key(p@) && crate::layout::full_map(crate::layout::backup_files_view(stored@))[
            p@
        ] == v@,
        r is None ==> !crate::layout::full_map(
            crate::layout::backup_files_view(stored@),
        ).contains_key(p@),
{
    let ghost sv = crate::layout::backup_files_view(stored@);
    let mut i: usize = 0;
    while i < stored.len()
        invariant
            0 <= i <= stored@.len(),
            sv == crate::layout::backup_files_view(stored@),
            crate::layout::unique_keys(sv),
            forall|j: int| 0 <= j < i ==> (#[trigger] sv[j]).0 != p@,
        decreases stored@.len() - i,
    {
        if crate::text::str_eq(&stored[i].path, p) {
            proof {
                crate::layout::lemma_full_map_lookup(sv, p@);
                assert(sv[i as int].0 == p@);
            }
            return Some(&stored[i].content);
        }
        i = i + 1;
    }
    proof {
        crate::layout::lemma_full_map_lookup(sv, p@);
        if crate::layout::full_map(sv).contains_key(p@) {
            let j = choose|j: int| 0 <= j < sv.len() && (#[trigger] sv[j]).0 == p@;
            assert(false);
        }
    }
    None
}

/// Whether some pair carries a path.
fn pairs_contain(pairs: &Vec<(String, Vec<u8>)>, p: &String) -> (r: bool)
    ensures
        r == exists|i: int| 0 <= i < pairs@.len() && (#[trigger] pairs@[i]).0@ == p@,
{
    let mut i: usize = 0;
    while i < pairs.len()
        invariant
            0 <= i <= pairs@.len(),
            forall|j: int| 0 <= j < i ==> (#[trigger] pairs@[j]).0@ != p@,
        decreases pairs@.len() - i,
    {
        if crate::text::str_eq(&pairs[i].0, p) {
            assert(pairs@[i as int].0@ == p@);
            return true;
        }
        i = i + 1;
    }
    false
}

/// Classifies one game's live files against the previous backup: paths and
/// bytes are kept as given, nothing is ignored or removed, and each change
/// kind is exactly what the previous state dictates.
fn classify_current(
    current: &Vec<(String, Vec<u8>)>,
    previous: &Vec<crate::layout::BackupFile>,
) -> (r: Vec<ScannedFile>)
    requires
        crate::layout::unique_keys(crate::layout::backup_files_view(previous@)),
    ensures
        r@.len() == current@.len(),
        forall|j: int|
            0 <= j < current@.len() ==> {
                let f = #[trigger] r@[j];
                &&& f.path@ == current@[j].0@
                &&& f.content@ == current@[j].1@
                &&& !f.ignored
                &&& !(f.change is Removed)
                &&& f.change == spec_backup_change(
                    current@[j].1@,
                    if crate::layout::full_map(
                        crate::layout::backup_files_view(previous@),
                    ).contains_key(current@[j].0@) {
                        Some(
                            crate::layout::full_map(crate::layout::backup_files_view(previous@))[
                                current@[j].0@
                            ],
                        )
                    } else {
                        None
                    },
                )
            },
{
    let ghost prevm = crate::layout::full_map(crate::layout::backup_files_view(previous@));
    let mut found: Vec<ScannedFile> = Vec::new();
    let n = current.len();
    let mut i: usize = 0;
    while i < n
        invariant
            0 <= i <= n,
            n == current@.len(),
            prevm == crate::layout::full_map(crate::layout::backup_files_view(previous@)),
            crate::layout::unique_keys(crate::layout::backup_files_view(previous@)),
            found@.len() == i,
            forall|j: int|
                0 <= j < i ==> {
                    let f = #[trigger] found@[j];
                    &&& f.path@ == current@[j].0@
                    &&& f.content@ == current@[j].1@
                    &&& !f.ignored
                    &&& !(f.change is Removed)
                    &&& f.change == spec_backup_change(
                        current@[j].1@,
                        if prevm.contains_key(current@[j].0@) {
                            Some(prevm[current@[j].0@])
                        } else {
                            None
                        },
                    )
                },
        decreases n - i,
    {
        let prev_bytes = find_stored(previous, &current[i].0);
        let change = classify_backup_file(&current[i].1, prev_bytes);
        found.push(ScannedFile {
            path: current[i].0.clone(),
            content: current[i].1.clone(),
            change,
            ignored: false,
            redirected_from: None,
        });
        i = i + 1;
    }
    found
}

/// Scans one game's live files for a backup: every live file is classified
/// against the previous backup, and every previously stored path that is
/// gone is recorded as removed. The result is exactly what back_up requires:
/// unique paths, agreement with the previous state, and a live view that is
/// the given files.
#[verifier::rlimit(60)]
pub fn scan_for_backup(
    game_name: String,
    current: &Vec<(String, Vec<u8>)>,
    previous: &Vec<crate::layout::BackupFile>,
) -> (r: ScanInfo)
    requires
        forall|i: int, j: int|
            0 <= i < j < current@.len() ==> (#[trigger] current@[i]).0@ != (
            #[trigger] current@[j]).0@,
        crate::layout::unique_keys(crate::layout::backup_files_view(previous@)),
    ensures
        r.game_name@ == game_name@,
        unique_paths(r.found_files@),
        crate::layout::scan_matches_previous(
            r.found_files@,
            crate::layout::full_map(crate::layout::backup_files_view(previous@)),
        ),
        live_map(r.found_files@) =~= crate::layout::full_map(pairs_view(current@)),
        r.found_files@.len() >= current@.len(),
        forall|i: int|
            0 <= i < current@.len() ==> {
                let f = #[trigger] r.found_files@[i];
                &&& f.path@ == current@[i].0@
                &&& f.content@ == current@[i].1@
                &&& !f.ignored
                &&& f.change == spec_backup_change(
                    current@[i].1@,
                    if crate::layout::full_map(
                        crate::layout::backup_files_view(previous@),
                    ).contains_key(current@[i].0@) {
                        Some(
                            crate::layout::full_map(crate::layout::backup_files_view(previous@))[
                                current@[i].0@
                            ],
                        )
                    } else {
                        None
                    },
                )
            },
        forall|i: int|
            current@.len() <= i < r.found_files@.len() ==> {
                let f = #[trigger] r.found_files@[i];
                &&& f.change is Removed
                &&& !f.ignored
                &&& crate::layout::full_map(
                    crate::layout::backup_files_view(previous@),
                ).contains_key(f.path@)
                &&& !(exists|a: int|
                    0 <= a < current@.len() && (#[trigger] current@[a]).0@ == f.path@)
            },
{
    let ghost prevm = crate::layout::full_map(crate::layout::backup_files_view(previous@));
    let ghost curv = pairs_view(current@);
    let mut found = classify_current(current, previous);
    let ghost phase1 = found@;
    let n = current.len();
    let mut j: usize = 0;
    proof {
        assert(found@.take(n as int) =~= phase1);
    }
    while j < previous.len()
        invariant
            0 <= j <= previous@.len(),
            n == current@.len(),
            phase1.len() == n,
            prevm == crate::layout::full_map(crate::layout::backup_files_view(previous@)),
            crate::layout::unique_keys(crate::layout::backup_files_view(previous@)),
            forall|a: int, b: int|
                0 <= a < b < current@.len() ==> (#[trigger] current@[a]).0@ != (
                #[trigger] current@[b]).0@,
            forall|m: int|
                0 <= m < n ==> {
                    let f = #[trigger] phase1[m];
                    &&& f.path@ == current@[m].0@
                    &&& f.content@ == current@[m].1@
                    &&& !f.ignored
                    &&& !(f.change is Removed)
                    &&& f.change == spec_backup_change(
                        current@[m].1@,
                        if prevm.contains_key(current@[m].0@) {
                            Some(prevm[current@[m].0@])
                        } else {
                            None
                        },
                    )
                },
            found@.len() >= n,
            found@.take(n as int) == phase1,
            forall|m: int|
                n <= m < found@.len() ==> {
                    let f = #[trigger] found@[m];
                    &&& f.change is Removed
                    &&& !f.ignored
                    &&& !(exists|a: int|
                        0 <= a < current@.len() && (#[trigger] current@[a]).0@ == f.path@)
                    &&& exists|b: int|
                        0 <= b < j && (#[trigger] crate::layout::backup_files_view(previous@)[
                            b
                        ]).0 == f.path@
                },
            forall|a: int, b: int|
                0 <= a < b < found@.len() ==> (#[trigger] found@[a]).path@ != (
                #[trigger] found@[b]).path@,
            forall|b: int|
                0 <= b < j ==> ((exists|a: int|
                    0 <= a < current@.len() && (#[trigger] current@[a]).0@ == (
                    #[trigger] crate::layout::backup_files_view(previous@)[b]).0) || (exists|
                    m: int,
                |
                    n <= m < found@.len() && (#[trigger] found@[m]).path@
                        == crate::layout::backup_files_view(previous@)[b].0)),
        decreases previous@.len() - j,
    {
        let ghost pv = crate::layout::backup_files_view(previous@);
        proof {
            assert(pv[j as int].0 == previous@[j as int].path@);
        }
        if !pairs_contain(current, &previous[j].path) {
            let ghost before = found@;
            found.push(ScannedFile {
                path: previous[j].path.clone(),
                content: Vec::new(),
                change: ScanChange::Removed,
                ignored: false,
                redirected_from: None,
            });
            proof {
                let f = found@[found@.len() - 1];
                assert(f.path@ == pv[j as int].0);
                assert(found@.take(n as int) =~= before.take(n as int));
                assert forall|a: int, b: int|
                    0 <= a < b < found@.len() implies (#[trigger] found@[a]).path@ != (
                #[trigger] found@[b]).path@ by {
                    if b == found@.len() - 1 {
                        assert(found@[a] == before[a]);
                        if a < n {
                            assert(before[a] == phase1[a]);
                            assert(phase1[a].path@ == current@[a].0@);
                        }
                    } else {
                        assert(found@[a] == before[a] && found@[b] == before[b]);
                    }
                }
                assert(exists|m: int|
                    n <= m < found@.len() && (#[trigger] found@[m]).path@ == pv[j as int].0);
                assert forall|b: int| 0 <= b < j implies ((exists|a: int|
                    0 <= a < current@.len() && (#[trigger] current@[a]).0@ == (
                    #[trigger] pv[b]).0) || (exists|m: int|
                    n <= m < found@.len() && (#[trigger] found@[m]).path@ == pv[b].0)) by {
                    if !(exists|a: int|
                        0 <= a < current@.len() && (#[trigger] current@[a]).0@ == pv[b].0) {
                        let m = choose|m: int|
                            n <= m < before.len() && (#[trigger] before[m]).path@ == pv[b].0;
                        assert(found@[m] == before[m]);
                        assert(found@[m].path@ == pv[b].0);
                    }
                }
            }
        } else {
            proof {
                assert(exists|a: int|
                    0 <= a < current@.len() && (#[trigger] current@[a]).0@ == pv[j as int].0);
            }
        }
        j = j + 1;
    }
    proof {
        let fv = found@;
        assert(forall|m: int| 0 <= m < n ==> #[trigger] fv[m] == phase1[m]);
        assert(unique_paths(fv));
        let pv = crate::layout::backup_files_view(previous@);
        assert forall|m: int|
            n <= m < fv.len() implies prevm.contains_key((#[trigger] fv[m]).path@) by {
            let b = choose|b: int| 0 <= b < pv.len() && (#[trigger] pv[b]).0 == fv[m].path@;
            crate::layout::lemma_full_map_lookup(pv, fv[m].path@);
        }
        assert forall|k: Seq<char>| prevm.contains_key(k) implies exists|m: int|
            0 <= m < fv.len() && (#[trigger] fv[m]).path@ == k && !fv[m].ignored by {
            crate::layout::lemma_full_map_lookup(pv, k);
            let b = choose|b: int| 0 <= b < pv.len() && (#[trigger] pv[b]).0 == k;
            if exists|a: int| 0 <= a < current@.len() && (#[trigger] current@[a]).0@ == k {
                let a = choose|a: int|
                    0 <= a < current@.len() && (#[trigger] current@[a]).0@ == k;
                assert(fv[a].path@ == k && !fv[a].ignored);
            } else {
                let m = choose|m: int|
                    n <= m < fv.len() && (#[trigger] fv[m]).path@ == pv[b].0;
                assert(fv[m].path@ == k && !fv[m].ignored);
            }
        }
        let curm = crate::layout::full_map(curv);
        assert forall|k: Seq<char>|
            #![trigger live_map(fv).dom().contains(k)]
            #![trigger curm.dom().contains(k)]
            live_map(fv).contains_key(k) == curm.contains_key(k) && (live_map(
                fv,
            ).contains_key(k) ==> live_map(fv)[k] == curm[k]) by {
            lemma_live_map_lookup(fv, k);
            crate::layout::lemma_full_map_lookup(curv, k);
            if live_map(fv).contains_key(k) {
                let m = choose|m: int|
                    0 <= m < fv.len() && (#[trigger] fv[m]).path@ == k && !fv[m].ignored && !(
                    fv[m].change is Removed);
                assert(m < n);
                assert(curv[m].0 == k);
                assert(curm.contains_key(k) && curm[k] == curv[m].1);
                assert(live_map(fv)[k] == fv[m].content@);
            }
            if curm.contains_key(k) {
                let a = choose|a: int| 0 <= a < curv.len() && (#[trigger] curv[a]).0 == k;
                assert(fv[a].path@ == current@[a].0@);
                assert(current@[a].0@ == k);
                assert(!(fv[a].change is Removed) && !fv[a].ignored);
                assert(live_map(fv).contains_key(k));
            }
        }
        assert(live_map(fv).dom() =~= curm.dom());
        assert(live_map(fv) =~= curm);
    }
    ScanInfo { game_name, found_files: found }
}

} // verus!
