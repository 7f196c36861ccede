use vstd::prelude::*;

use crate::scan::{live_map, unique_paths, ScanChange, ScanInfo, ScannedFile};
use crate::time::{timestamp_chars, Time};

verus! {

/// How many backups to keep: full snapshots, and differentials per full.
#[derive(Clone, Copy, PartialEq, Eq, Structural, Debug)]
pub struct Retention {
    pub full: u8,
    pub differential: u8,
}

/// The kind of backup the next call will create.
#[derive(Clone, Copy, PartialEq, Eq, Structural, Debug)]
pub enum BackupKind {
    Full,
    Differential,
}

/// Which backup a restore addresses.
#[derive(Clone)]
pub enum BackupId {
    Latest,
    Named(String),
}

/// A file stored inside a full backup, keyed by its logical path.
#[derive(Clone)]
pub struct BackupFile {
    pub path: String,
    pub content: Vec<u8>,
}

/// A differential entry: new bytes for the path, or its removal.
#[derive(Clone)]
pub struct DiffFile {
    pub path: String,
    pub content: Option<Vec<u8>>,
}

/// A full snapshot with the differentials layered on top of it, oldest first.
pub struct FullBackup {
    pub id: String,
    pub when: Time,
    pub files: Vec<BackupFile>,
    pub children: Vec<DiffBackup>,
}

/// One differential backup: the changes relative to the state just before it.
pub struct DiffBackup {
    pub id: String,
    pub when: Time,
    pub files: Vec<DiffFile>,
}

/// One game's backup history with its retention policy.
pub struct GameLayout {
    pub retention: Retention,
    pub fulls: Vec<FullBackup>,
}

/// Stored files as plain pairs of path and bytes.
pub open spec fn backup_files_view(files: Seq<BackupFile>) -> Seq<(Seq<char>, Seq<u8>)> {
    files.map_values(|f: BackupFile| (f.path@, f.content@))
}

/// Differential entries as plain pairs of path and optional bytes.
pub open spec fn diff_files_view(files: Seq<DiffFile>) -> Seq<(Seq<char>, Option<Seq<u8>>)> {
    files.map_values(
        |f: DiffFile|
            (
                f.path@,
                match f.content {
                    Some(c) => Some(c@),
                    None => None,
                },
            ),
    )
}

/// The path-to-bytes mapping a list of stored files denotes.
pub open spec fn full_map(files: Seq<(Seq<char>, Seq<u8>)>) -> Map<Seq<char>, Seq<u8>>
    decreases files.len(),
{
    if files.len() == 0 {
        Map::empty()
    } else {
        full_map(files.drop_last()).insert(files.last().0, files.last().1)
    }
}

/// A differential applied to a base state, entry by entry.
pub open spec fn apply_diff(
    base: Map<Seq<char>, Seq<u8>>,
    d: Seq<(Seq<char>, Option<Seq<u8>>)>,
) -> Map<Seq<char>, Seq<u8>>
    decreases d.len(),
{
    if d.len() == 0 {
        base
    } else {
        let m = apply_diff(base, d.drop_last());
        match d.last().1 {
            Some(c) => m.insert(d.last().0, c),
            None => m.remove(d.last().0),
        }
    }
}

impl FullBackup {
    /// The state after the first k differentials.
    pub open spec fn resolve_upto(self, k: int) -> Map<Seq<char>, Seq<u8>>
        decreases k,
    {
        if k <= 0 {
            full_map(backup_files_view(self.files@))
        } else {
            apply_diff(self.resolve_upto(k - 1), diff_files_view(self.children[k - 1].files@))
        }
    }

    /// The state of this full with every differential applied.
    pub open spec fn resolved(self) -> Map<Seq<char>, Seq<u8>> {
        self.resolve_upto(self.children@.len() as int)
    }
}

/// Two fulls that agree on their files and their first k differentials
/// resolve alike up to k.
pub proof fn lemma_resolve_upto_congruence(f1: FullBackup, f2: FullBackup, k: int)
    requires
        backup_files_view(f1.files@) == backup_files_view(f2.files@),
        0 <= k <= f1.children@.len(),
        k <= f2.children@.len(),
        forall|i: int|
            0 <= i < k ==> diff_files_view((#[trigger] f1.children@[i]).files@) == diff_files_view(
                f2.children@[i].files@,
            ),
    ensures
        f1.resolve_upto(k) == f2.resolve_upto(k),
    decreases k,
{
    if k > 0 {
        lemma_resolve_upto_congruence(f1, f2, k - 1);
    }
}

impl GameLayout {
    /// Retention holds: at least one full is kept, history is within bounds.
    pub open spec fn wf(self) -> bool {
        &&& self.retention.full >= 1
        &&& self.fulls@.len() <= self.retention.full
        &&& forall|i: int|
            0 <= i < self.fulls@.len() ==> (#[trigger] self.fulls@[i]).children@.len()
                <= self.retention.differential
    }

    /// The state the latest backup denotes.
    pub open spec fn latest_resolved(self) -> Map<Seq<char>, Seq<u8>> {
        self.fulls@.last().resolved()
    }

    /// A new backup is a full when no full exists yet or the tail full has no
    /// room for another differential.
    pub open spec fn spec_plan_kind(self) -> BackupKind {
        if self.fulls@.len() == 0 || self.fulls@.last().children@.len()
            >= self.retention.differential {
            BackupKind::Full
        } else {
            BackupKind::Differential
        }
    }

    pub fn new(retention: Retention) -> (r: GameLayout)
        requires
            retention.full >= 1,
        ensures
            r.wf(),
            r.retention == retention,
            r.fulls@.len() == 0,
    {
        GameLayout { retention, fulls: Vec::new() }
    }

    /// Decides the kind of the next backup.
    pub fn plan_backup_kind(&self) -> (k: BackupKind)
        ensures
            k == self.spec_plan_kind(),
    {
        if self.fulls.len() == 0 {
            BackupKind::Full
        } else if self.fulls[self.fulls.len() - 1].children.len()
            >= self.retention.differential as usize {
            BackupKind::Full
        } else {
            BackupKind::Differential
        }
    }
}

/// The files a full backup stores for a scan: every hit that is neither
/// ignored nor gone.
pub open spec fn full_entries(files: Seq<ScannedFile>) -> Seq<(Seq<char>, Seq<u8>)>
    decreases files.len(),
{
    if files.len() == 0 {
        Seq::empty()
    } else {
        let prev = full_entries(files.drop_last());
        let f = files.last();
        if f.ignored || f.change is Removed {
            prev
        } else {
            prev.push((f.path@, f.content@))
        }
    }
}

/// The entries a differential stores for a scan: every non-ignored change,
/// with removals marked.
pub open spec fn diff_entries(files: Seq<ScannedFile>) -> Seq<(Seq<char>, Option<Seq<u8>>)>
    decreases files.len(),
{
    if files.len() == 0 {
        Seq::empty()
    } else {
        let prev = diff_entries(files.drop_last());
        let f = files.last();
        if f.ignored || f.change is Same {
            prev
        } else if f.change is Removed {
            prev.push((f.path@, None))
        } else {
            prev.push((f.path@, Some(f.content@)))
        }
    }
}

/// A full backup of a scan captures exactly the live state.
pub proof fn lemma_full_entries_map(files: Seq<ScannedFile>)
    ensures
        full_map(full_entries(files)) =~= live_map(files),
    decreases files.len(),
{
    if files.len() > 0 {
        lemma_full_entries_map(files.drop_last());
        let f = files.last();
        if !(f.ignored || f.change is Removed) {
            assert(full_entries(files.drop_last()).push((f.path@, f.content@)).drop_last()
                =~= full_entries(files.drop_last()));
        }
    }
}

/// What the differential of a scan decides for one key: nothing, a removal,
/// or new bytes.
pub open spec fn diff_at(files: Seq<ScannedFile>, k: Seq<char>) -> Option<Option<Seq<u8>>>
    decreases files.len(),
{
    if files.len() == 0 {
        None
    } else {
        let f = files.last();
        if !f.ignored && f.path@ == k && !(f.change is Same) {
            if f.change is Removed {
                Some(None)
            } else {
                Some(Some(f.content@))
            }
        } else {
            diff_at(files.drop_last(), k)
        }
    }
}

/// Applying the differential entries of a scan acts on each key as diff_at
/// says.
pub proof fn lemma_apply_diff_entries_at(
    base: Map<Seq<char>, Seq<u8>>,
    files: Seq<ScannedFile>,
    k: Seq<char>,
)
    ensures
        match diff_at(files, k) {
            Option::None => apply_diff(base, diff_entries(files)).contains_key(k)
                == base.contains_key(k) && (base.contains_key(k) ==> apply_diff(
                base,
                diff_entries(files),
            )[k] == base[k]),
            Option::Some(w) => match w {
                Option::None => !apply_diff(base, diff_entries(files)).contains_key(k),
                Option::Some(c) => apply_diff(base, diff_entries(files)).contains_key(k)
                    && apply_diff(base, diff_entries(files))[k] == c,
            },
        },
    decreases files.len(),
{
    if files.len() > 0 {
        lemma_apply_diff_entries_at(base, files.drop_last(), k);
        let f = files.last();
        let prev = diff_entries(files.drop_last());
        if f.ignored || f.change is Same {
        } else if f.change is Removed {
            assert(prev.push((f.path@, None)).drop_last() =~= prev);
        } else {
            assert(prev.push((f.path@, Some(f.content@))).drop_last() =~= prev);
        }
    }
}

/// What diff_at reports comes from an actual scan entry, and a silent key has
/// no changed entry.
pub proof fn lemma_diff_at_witness(files: Seq<ScannedFile>, k: Seq<char>)
    ensures
        diff_at(files, k) matches Some(w) ==> exists|i: int|
            0 <= i < files.len() && (#[trigger] files[i]).path@ == k && !files[i].ignored && !(
            files[i].change is Same) && (files[i].change is Removed <==> w is None) && (
            w matches Some(c) ==> files[i].content@ == c),
        diff_at(files, k) is None ==> forall|i: int|
            0 <= i < files.len() && (#[trigger] files[i]).path@ == k ==> files[i].ignored
                || files[i].change is Same,
    decreases files.len(),
{
    if files.len() > 0 {
        lemma_diff_at_witness(files.drop_last(), k);
        let n = files.len() - 1;
        assert(forall|i: int| 0 <= i < n ==> #[trigger] files.drop_last()[i] == files[i]);
        let f = files[n];
        if diff_at(files, k) is None {
            assert forall|i: int|
                0 <= i < files.len() && (#[trigger] files[i]).path@ == k implies files[i].ignored
                || files[i].change is Same by {
                if i < n {
                    assert(files.drop_last()[i] == files[i]);
                }
            }
        }
        if !f.ignored && f.path@ == k && !(f.change is Same) {
        } else if diff_at(files.drop_last(), k) is Some {
            let w = diff_at(files.drop_last(), k)->0;
            {
                let i = choose|i: int|
                    0 <= i < files.drop_last().len() && (#[trigger] files.drop_last()[i]).path@
                        == k && !files.drop_last()[i].ignored && !(files.drop_last()[i].change
                        is Same) && (files.drop_last()[i].change is Removed <==> w is None) && (
                    w matches Some(c) ==> files.drop_last()[i].content@ == c);
                assert(files[i].path@ == k && !files[i].ignored && !(files[i].change is Same) && (
                files[i].change is Removed <==> w is None) && (w matches Some(c)
                    ==> files[i].content@ == c));
            }
        }
    }
}

/// The scan's change kinds agree with a previous state: unchanged files carry
/// the bytes that state holds, and every path of that state was scanned.
pub open spec fn scan_matches_previous(
    files: Seq<ScannedFile>,
    prev: Map<Seq<char>, Seq<u8>>,
) -> bool {
    &&& forall|i: int|
        0 <= i < files.len() && !(#[trigger] files[i]).ignored && files[i].change is Same
            ==> prev.contains_key(files[i].path@) && prev[files[i].path@] == files[i].content@
    &&& forall|k: Seq<char>|
        prev.contains_key(k) ==> exists|i: int|
            0 <= i < files.len() && (#[trigger] files[i]).path@ == k && !files[i].ignored
}

/// A differential backup of a scan, applied to the state it was taken
/// against, captures exactly the live state.
pub proof fn lemma_diff_entries_map(files: Seq<ScannedFile>, base: Map<Seq<char>, Seq<u8>>)
    requires
        unique_paths(files),
        scan_matches_previous(files, base),
    ensures
        apply_diff(base, diff_entries(files)) =~= live_map(files),
{
    let result = apply_diff(base, diff_entries(files));
    let live = live_map(files);
    assert forall|k: Seq<char>|
        #![trigger result.dom().contains(k)]
        #![trigger live.dom().contains(k)]
        result.contains_key(k) == live.contains_key(k) && (result.contains_key(k) ==> result[k]
            == live[k]) by {
        lemma_apply_diff_entries_at(base, files, k);
        lemma_diff_at_witness(files, k);
        crate::scan::lemma_live_map_lookup(files, k);
        match diff_at(files, k) {
            Option::None => {
                if exists|i: int|
                    0 <= i < files.len() && (#[trigger] files[i]).path@ == k && !files[i].ignored {
                    let i = choose|i: int|
                        0 <= i < files.len() && (#[trigger] files[i]).path@ == k
                            && !files[i].ignored;
                    assert(files[i].ignored || files[i].change is Same);
                    assert(files[i].change is Same);
                    assert(base.contains_key(k) && base[k] == files[i].content@);
                    assert(live.contains_key(k) && live[k] == files[i].content@);
                } else {
                    assert(!base.contains_key(k));
                    assert(!result.contains_key(k));
                    if live.contains_key(k) {
                        let i = choose|i: int|
                            0 <= i < files.len() && (#[trigger] files[i]).path@ == k
                                && !files[i].ignored && !(files[i].change is Removed);
                        assert(false);
                    }
                }
            },
            Option::Some(w) => {
                let i = choose|i: int|
                    0 <= i < files.len() && (#[trigger] files[i]).path@ == k && !files[i].ignored
                        && !(files[i].change is Same) && (files[i].change is Removed <==> w
                        is None) && (w matches Some(c) ==> files[i].content@ == c);
                match w {
                    Option::None => {
                        assert(!result.contains_key(k));
                        if live.contains_key(k) {
                            let j = choose|j: int|
                                0 <= j < files.len() && (#[trigger] files[j]).path@ == k
                                    && !files[j].ignored && !(files[j].change is Removed);
                            assert(j != i);
                            if i < j {
                                assert(files[i].path@ != files[j].path@);
                            } else {
                                assert(files[j].path@ != files[i].path@);
                            }
                            assert(false);
                        }
                    },
                    Option::Some(c) => {
                        assert(result.contains_key(k) && result[k] == c);
                        assert(live.contains_key(k) && live[k] == files[i].content@);
                    },
                }
            },
        }
    }
    assert(result.dom() =~= live.dom());
    assert(result =~= live);
}

/// The id a backup is stored under: its kind, then the UTC second it was
/// taken.
pub open spec fn backup_id_chars(kind: BackupKind, t: Time) -> Seq<char> {
    match kind {
        BackupKind::Full => seq!['f', 'u', 'l', 'l', '-'] + timestamp_chars(t),
        BackupKind::Differential => seq!['d', 'i', 'f', 'f', '-'] + timestamp_chars(t),
    }
}

/// Renders a backup id: full-YYYYMMDDTHHMMSSZ or diff-YYYYMMDDTHHMMSSZ.
pub fn make_backup_id(kind: BackupKind, t: &Time) -> (r: String)
    requires
        t.wf(),
    ensures
        r@ == backup_id_chars(kind, *t),
{
    let mut out: Vec<char> = Vec::new();
    match kind {
        BackupKind::Full => {
            out.push('f');
            out.push('u');
            out.push('l');
            out.push('l');
            out.push('-');
        },
        BackupKind::Differential => {
            out.push('d');
            out.push('i');
            out.push('f');
            out.push('f');
            out.push('-');
        },
    }
    crate::time::push_timestamp(&mut out, t);
    proof {
        assert(out@ =~= backup_id_chars(kind, *t));
    }
    crate::text::string_of(&out)
}

/// Collects the files a full backup stores.
fn build_full_files(scan: &ScanInfo) -> (r: Vec<BackupFile>)
    ensures
        backup_files_view(r@) == full_entries(scan.found_files@),
{
    let files = &scan.found_files;
    let mut r: Vec<BackupFile> = Vec::new();
    let mut i: usize = 0;
    proof {
        assert(backup_files_view(r@) =~= full_entries(files@.take(0int)));
    }
    while i < files.len()
        invariant
            0 <= i <= files.len(),
            backup_files_view(r@) == full_entries(files@.take(i as int)),
        decreases files.len() - i,
    {
        let f = &files[i];
        proof {
            assert(files@.take(i + 1).drop_last() =~= files@.take(i as int));
            assert(files@.take(i + 1).last() == files@[i as int]);
        }
        if !f.ignored && !(f.change == ScanChange::Removed) {
            let ghost before = r@;
            r.push(BackupFile { path: f.path.clone(), content: f.content.clone() });
            proof {
                assert(backup_files_view(r@) =~= backup_files_view(before).push(
                    (files@[i as int].path@, files@[i as int].content@),
                ));
            }
        }
        i = i + 1;
    }
    proof {
        assert(files@.take(files@.len() as int) =~= files@);
    }
    r
}

/// Collects the entries a differential backup stores.
fn build_diff_files(scan: &ScanInfo) -> (r: Vec<DiffFile>)
    ensures
        diff_files_view(r@) == diff_entries(scan.found_files@),
{
    let files = &scan.found_files;
    let mut r: Vec<DiffFile> = Vec::new();
    let mut i: usize = 0;
    proof {
        assert(diff_files_view(r@) =~= diff_entries(files@.take(0int)));
    }
    while i < files.len()
        invariant
            0 <= i <= files.len(),
            diff_files_view(r@) == diff_entries(files@.take(i as int)),
        decreases files.len() - i,
    {
        let f = &files[i];
        proof {
            assert(files@.take(i + 1).drop_last() =~= files@.take(i as int));
            assert(files@.take(i + 1).last() == files@[i as int]);
        }
        if !f.ignored && !(f.change == ScanChange::Same) {
            let ghost before = r@;
            if f.change == ScanChange::Removed {
                r.push(DiffFile { path: f.path.clone(), content: None });
                proof {
                    assert(diff_files_view(r@) =~= diff_files_view(before).push(
                        (files@[i as int].path@, None),
                    ));
                }
            } else {
                r.push(DiffFile { path: f.path.clone(), content: Some(f.content.clone()) });
                proof {
                    assert(diff_files_view(r@) =~= diff_files_view(before).push(
                        (files@[i as int].path@, Some(files@[i as int].content@)),
                    ));
                }
            }
        }
        i = i + 1;
    }
    proof {
        assert(files@.take(files@.len() as int) =~= files@);
    }
    r
}

impl GameLayout {
    /// Takes a backup of the scanned state. A full snapshot is taken when due,
    /// else a differential against the latest state; afterwards the oldest
    /// full leaves if the count would exceed retention. Whatever the kind, the
    /// latest backup then resolves to exactly the scanned live state.
    pub fn back_up(self, scan: &ScanInfo, now: &Time) -> (r: GameLayout)
        requires
            self.wf(),
            now.wf(),
            unique_paths(scan.found_files@),
            self.spec_plan_kind() is Differential ==> scan_matches_previous(
                scan.found_files@,
                self.latest_resolved(),
            ),
        ensures
            r.wf(),
            r.retention == self.retention,
            r.fulls@.len() > 0,
            r.latest_resolved() =~= live_map(scan.found_files@),
            self.spec_plan_kind() is Full ==> {
                &&& r.fulls@.len() == (if self.fulls@.len() < self.retention.full {
                    self.fulls@.len() as int + 1
                } else {
                    self.retention.full as int
                })
                &&& forall|i: int|
                    0 <= i < r.fulls@.len() - 1 ==> #[trigger] r.fulls@[i] == self.fulls@[i
                        + self.fulls@.len() - (r.fulls@.len() - 1)]
                &&& r.fulls@.last().children@.len() == 0
                &&& r.fulls@.last().id@ == backup_id_chars(BackupKind::Full, *now)
                &&& backup_files_view(r.fulls@.last().files@) == full_entries(scan.found_files@)
                &&& unique_keys(backup_files_view(r.fulls@.last().files@))
            },
            self.spec_plan_kind() is Differential ==> {
                &&& r.fulls@.len() == self.fulls@.len()
                &&& forall|i: int|
                    0 <= i < self.fulls@.len() - 1 ==> r.fulls@[i] == self.fulls@[i]
                &&& r.fulls@.last().files == self.fulls@.last().files
                &&& r.fulls@.last().id == self.fulls@.last().id
                &&& r.fulls@.last().children@.len() == self.fulls@.last().children@.len() + 1
                &&& forall|i: int|
                    0 <= i < self.fulls@.last().children@.len() ==> r.fulls@.last().children@[i]
                        == self.fulls@.last().children@[i]
                &&& r.fulls@.last().children@.last().id@ == backup_id_chars(
                    BackupKind::Differential,
                    *now,
                )
                &&& diff_files_view(r.fulls@.last().children@.last().files@) == diff_entries(
                    scan.found_files@,
                )
                &&& unique_keys(diff_files_view(r.fulls@.last().children@.last().files@))
            },
    {
        let ghost orig = self;
        let retention = self.retention;
        let kind = self.plan_backup_kind();
        let mut fulls = self.fulls;
        match kind {
            BackupKind::Full => {
                let files = build_full_files(scan);
                let id = make_backup_id(BackupKind::Full, now);
                let nf = FullBackup { id, when: *now, files, children: Vec::new() };
                let ghost nfg = nf;
                fulls.push(nf);
                if fulls.len() > retention.full as usize {
                    let _ = fulls.remove(0);
                    proof {
                        assert(fulls@ =~= orig.fulls@.push(nfg).skip(1));
                    }
                }
                let r = GameLayout { retention, fulls };
                proof {
                    assert(r.fulls@.last() == nfg);
                    assert(r.latest_resolved() == full_map(backup_files_view(nfg.files@)));
                    lemma_full_entries_map(scan.found_files@);
                    lemma_full_entries_unique(scan.found_files@);
                    if orig.fulls@.len() < retention.full {
                        assert(forall|i: int|
                            0 <= i < r.fulls@.len() - 1 ==> #[trigger] r.fulls@[i]
                                == orig.fulls@[i]);
                    } else {
                        assert(orig.fulls@.len() == retention.full);
                        assert(r.fulls@.len() == retention.full);
                        assert(forall|i: int|
                            0 <= i < r.fulls@.len() - 1 ==> #[trigger] r.fulls@[i]
                                == orig.fulls@.push(nfg).skip(1)[i]);
                        assert(forall|i: int|
                            0 <= i < r.fulls@.len() - 1 ==> orig.fulls@.push(nfg).skip(1)[i]
                                == orig.fulls@[i + 1]);
                    }
                    assert forall|i: int| 0 <= i < r.fulls@.len() implies (
                    #[trigger] r.fulls@[i]).children@.len() <= retention.differential by {
                        if i < r.fulls@.len() - 1 {
                            let off = orig.fulls@.len() - (r.fulls@.len() - 1);
                            assert(r.fulls@[i] == orig.fulls@[i + off]);
                        }
                    }
                }
                r
            },
            BackupKind::Differential => {
                let d = build_diff_files(scan);
                let id = make_backup_id(BackupKind::Differential, now);
                let nd = DiffBackup { id, when: *now, files: d };
                let ghost ndg = nd;
                let n = fulls.len();
                let mut last = fulls.remove(n - 1);
                let ghost lastg = last;
                last.children.push(nd);
                let ghost updated = last;
                fulls.push(last);
                let r = GameLayout { retention, fulls };
                proof {
                    assert(r.fulls@ =~= orig.fulls@.drop_last().push(updated));
                    assert(r.fulls@.last() == updated);
                    assert(updated.children@ =~= lastg.children@.push(ndg));
                    assert(lastg == orig.fulls@.last());
                    let k = lastg.children@.len() as int;
                    lemma_resolve_upto_congruence(updated, lastg, k);
                    assert(updated.resolve_upto(k) == lastg.resolved());
                    assert(updated.resolved() == apply_diff(
                        lastg.resolved(),
                        diff_files_view(ndg.files@),
                    ));
                    lemma_diff_entries_map(scan.found_files@, orig.latest_resolved());
                    lemma_diff_entries_unique(scan.found_files@);
                    assert forall|i: int| 0 <= i < r.fulls@.len() implies (
                    #[trigger] r.fulls@[i]).children@.len() <= retention.differential by {
                        if i < r.fulls@.len() - 1 {
                            assert(r.fulls@[i] == orig.fulls@[i]);
                        }
                    }
                }
                r
            },
        }
    }
}


/// Key lists with no repeated key.
pub open spec fn unique_keys<T>(s: Seq<(Seq<char>, T)>) -> bool {
    forall|i: int, j: int| 0 <= i < j < s.len() ==> (#[trigger] s[i]).0 != (#[trigger] s[j]).0
}

/// Where a stored file list decides a key, and what it holds there.
pub proof fn lemma_full_map_lookup(files: Seq<(Seq<char>, Seq<u8>)>, k: Seq<char>)
    requires
        unique_keys(files),
    ensures
        full_map(files).contains_key(k) <==> exists|i: int|
            0 <= i < files.len() && (#[trigger] files[i]).0 == k,
        forall|i: int|
            0 <= i < files.len() && (#[trigger] files[i]).0 == k ==> full_map(
                files,
            ).contains_key(k) && full_map(files)[k] == files[i].1,
    decreases files.len(),
{
    if files.len() > 0 {
        let n = files.len() - 1;
        let prev = files.drop_last();
        lemma_full_map_lookup(prev, k);
        assert(forall|i: int| 0 <= i < n ==> #[trigger] prev[i] == files[i]);
        assert forall|i: int|
            0 <= i < files.len() && (#[trigger] files[i]).0 == k implies full_map(
            files,
        ).contains_key(k) && full_map(files)[k] == files[i].1 by {
            if i < n {
                assert(prev[i] == files[i]);
                assert(files[i].0 != files[n].0);
            }
        }
        if full_map(files).contains_key(k) && files[n].0 != k {
            assert(full_map(prev).contains_key(k));
            let i = choose|i: int| 0 <= i < prev.len() && (#[trigger] prev[i]).0 == k;
            assert(files[i].0 == k);
        }
        if exists|i: int| 0 <= i < files.len() && (#[trigger] files[i]).0 == k {
            assert(full_map(files).contains_key(k));
        }
    }
}

/// The keys a full backup of a scan stores are the scanned paths, each once.
pub proof fn lemma_full_entries_unique(files: Seq<ScannedFile>)
    requires
        unique_paths(files),
    ensures
        unique_keys(full_entries(files)),
        forall|j: int|
            0 <= j < full_entries(files).len() ==> exists|i: int|
                0 <= i < files.len() && (#[trigger] full_entries(files)[j]).0 == (
                #[trigger] files[i]).path@,
    decreases files.len(),
{
    if files.len() > 0 {
        let n = files.len() - 1;
        let prev = files.drop_last();
        assert(forall|i: int| 0 <= i < n ==> #[trigger] prev[i] == files[i]);
        lemma_full_entries_unique(prev);
        let e = full_entries(files);
        let pe = full_entries(prev);
        assert forall|j: int|
            0 <= j < e.len() implies exists|i: int|
            0 <= i < files.len() && (#[trigger] e[j]).0 == (#[trigger] files[i]).path@ by {
            if j < pe.len() {
                let i = choose|i: int|
                    0 <= i < prev.len() && (#[trigger] pe[j]).0 == (#[trigger] prev[i]).path@;
                assert(e[j].0 == files[i].path@);
            } else {
                assert(e[j].0 == files[n].path@);
            }
        }
        assert forall|a: int, b: int| 0 <= a < b < e.len() implies (#[trigger] e[a]).0 != (
        #[trigger] e[b]).0 by {
            if b < pe.len() {
            } else if b == pe.len() && e.len() > pe.len() {
                let i = choose|i: int|
                    0 <= i < prev.len() && (#[trigger] pe[a]).0 == (#[trigger] prev[i]).path@;
                assert(e[b].0 == files[n].path@);
                assert(files[i].path@ != files[n].path@);
            }
        }
    }
}

/// The keys a differential of a scan stores are scanned paths, each once.
pub proof fn lemma_diff_entries_unique(files: Seq<ScannedFile>)
    requires
        unique_paths(files),
    ensures
        unique_keys(diff_entries(files)),
        forall|j: int|
            0 <= j < diff_entries(files).len() ==> exists|i: int|
                0 <= i < files.len() && (#[trigger] diff_entries(files)[j]).0 == (
                #[trigger] files[i]).path@,
    decreases files.len(),
{
    if files.len() > 0 {
        let n = files.len() - 1;
        let prev = files.drop_last();
        assert(forall|i: int| 0 <= i < n ==> #[trigger] prev[i] == files[i]);
        lemma_diff_entries_unique(prev);
        let e = diff_entries(files);
        let pe = diff_entries(prev);
        assert forall|j: int|
            0 <= j < e.len() implies exists|i: int|
            0 <= i < files.len() && (#[trigger] e[j]).0 == (#[trigger] files[i]).path@ by {
            if j < pe.len() {
                let i = choose|i: int|
                    0 <= i < prev.len() && (#[trigger] pe[j]).0 == (#[trigger] prev[i]).path@;
                assert(e[j].0 == files[i].path@);
            } else {
                assert(e[j].0 == files[n].path@);
            }
        }
        assert forall|a: int, b: int| 0 <= a < b < e.len() implies (#[trigger] e[a]).0 != (
        #[trigger] e[b]).0 by {
            if b < pe.len() {
            } else if b == pe.len() && e.len() > pe.len() {
                let i = choose|i: int|
                    0 <= i < prev.len() && (#[trigger] pe[a]).0 == (#[trigger] prev[i]).path@;
                assert(e[b].0 == files[n].path@);
                assert(files[i].path@ != files[n].path@);
            }
        }
    }
}

/// Copies a stored file list.
fn copy_stored(files: &Vec<BackupFile>) -> (r: Vec<BackupFile>)
    ensures
        backup_files_view(r@) == backup_files_view(files@),
{
    let mut r: Vec<BackupFile> = Vec::new();
    let mut i: usize = 0;
    while i < files.len()
        invariant
            0 <= i <= files.len(),
            r@.len() == i,
            forall|m: int|
                0 <= m < i ==> (#[trigger] r@[m]).path@ == files@[m].path@ && r@[m].content@
                    == files@[m].content@,
        decreases files.len() - i,
    {
        let f = &files[i];
        r.push(BackupFile { path: f.path.clone(), content: f.content.clone() });
        i = i + 1;
    }
    proof {
        assert(backup_files_view(r@) =~= backup_files_view(files@));
    }
    r
}

/// Replaces the bytes stored under a path, or adds the pair.
fn upsert_stored(files: Vec<BackupFile>, path: &String, content: &Vec<u8>) -> (r: Vec<
    BackupFile,
>)
    requires
        unique_keys(backup_files_view(files@)),
    ensures
        unique_keys(backup_files_view(r@)),
        full_map(backup_files_view(r@)) =~= full_map(backup_files_view(files@)).insert(
            path@,
            content@,
        ),
{
    let ghost origv = backup_files_view(files@);
    let mut r = files;
    let mut i: usize = 0;
    while i < r.len()
        invariant
            0 <= i <= r.len(),
            backup_files_view(r@) == origv,
            origv == backup_files_view(files@),
            unique_keys(origv),
            forall|j: int| 0 <= j < i ==> (#[trigger] origv[j]).0 != path@,
        decreases r.len() - i,
    {
        if crate::text::str_eq(&r[i].path, path) {
            let ghost pv = path@;
            let ghost cv = content@;
            let _ = r.remove(i);
            r.insert(i, BackupFile { path: path.clone(), content: content.clone() });
            proof {
                let newv = backup_files_view(r@);
                assert(newv =~= origv.update(i as int, (pv, cv)));
                assert(origv[i as int].0 == pv);
                assert forall|a: int, b: int| 0 <= a < b < newv.len() implies (
                #[trigger] newv[a]).0 != (#[trigger] newv[b]).0 by {
                    if a != i && b != i {
                        assert(newv[a] == origv[a] && newv[b] == origv[b]);
                    } else if a == i {
                        assert(newv[b] == origv[b]);
                        assert(origv[i as int].0 != origv[b].0);
                    } else {
                        assert(newv[a] == origv[a]);
                        assert(origv[a].0 != origv[i as int].0);
                    }
                }
                let m1 = full_map(newv);
                let m2 = full_map(origv).insert(pv, cv);
                assert forall|k: Seq<char>|
                    #![trigger m1.dom().contains(k)]
                    #![trigger m2.dom().contains(k)]
                    m1.contains_key(k) == m2.contains_key(k) && (m1.contains_key(k) ==> m1[k]
                        == m2[k]) by {
                    lemma_full_map_lookup(newv, k);
                    lemma_full_map_lookup(origv, k);
                    if k == pv {
                        assert(newv[i as int].0 == k);
                        assert(m1.contains_key(k) && m1[k] == cv);
                    } else {
                        if m1.contains_key(k) {
                            let j = choose|j: int|
                                0 <= j < newv.len() && (#[trigger] newv[j]).0 == k;
                            assert(j != i);
                            assert(origv[j] == newv[j]);
                        }
                        if full_map(origv).contains_key(k) {
                            let j = choose|j: int|
                                0 <= j < origv.len() && (#[trigger] origv[j]).0 == k;
                            assert(j != i);
                            assert(newv[j] == origv[j]);
                        }
                    }
                }
                assert(m1.dom() =~= m2.dom());
                assert(m1 =~= m2);
            }
            return r;
        }
        i = i + 1;
    }
    let ghost pv = path@;
    let ghost cv = content@;
    r.push(BackupFile { path: path.clone(), content: content.clone() });
    proof {
        let newv = backup_files_view(r@);
        assert(newv =~= origv.push((pv, cv)));
        assert(newv.drop_last() =~= origv);
        assert forall|a: int, b: int| 0 <= a < b < newv.len() implies (#[trigger] newv[a]).0 != (
        #[trigger] newv[b]).0 by {
            if b == newv.len() - 1 {
                assert(newv[a] == origv[a]);
                assert(origv[a].0 != pv);
            } else {
                assert(newv[a] == origv[a] && newv[b] == origv[b]);
            }
        }
    }
    r
}

/// Drops the pair stored under a path, if any.
fn remove_stored(files: Vec<BackupFile>, path: &String) -> (r: Vec<BackupFile>)
    requires
        unique_keys(backup_files_view(files@)),
    ensures
        unique_keys(backup_files_view(r@)),
        full_map(backup_files_view(r@)) =~= full_map(backup_files_view(files@)).remove(path@),
{
    let ghost origv = backup_files_view(files@);
    let mut r = files;
    let mut i: usize = 0;
    while i < r.len()
        invariant
            0 <= i <= r.len(),
            backup_files_view(r@) == origv,
            origv == backup_files_view(files@),
            unique_keys(origv),
            forall|j: int| 0 <= j < i ==> (#[trigger] origv[j]).0 != path@,
        decreases r.len() - i,
    {
        if crate::text::str_eq(&r[i].path, path) {
            let _ = r.remove(i);
            proof {
                let newv = backup_files_view(r@);
                assert(newv =~= origv.remove(i as int));
                assert(origv[i as int].0 == path@);
                assert(forall|j: int| 0 <= j < i ==> #[trigger] newv[j] == origv[j]);
                assert(forall|j: int|
                    i <= j < newv.len() ==> #[trigger] newv[j] == origv[j + 1]);
                assert forall|a: int, b: int| 0 <= a < b < newv.len() implies (
                #[trigger] newv[a]).0 != (#[trigger] newv[b]).0 by {
                    let a2: int = if a < i { a } else { a + 1 };
                    let b2: int = if b < i { b } else { b + 1 };
                    assert(newv[a] == origv[a2] && newv[b] == origv[b2]);
                }
                let m1 = full_map(newv);
                let m2 = full_map(origv).remove(path@);
                assert forall|k: Seq<char>|
                    #![trigger m1.dom().contains(k)]
                    #![trigger m2.dom().contains(k)]
                    m1.contains_key(k) == m2.contains_key(k) && (m1.contains_key(k) ==> m1[k]
                        == m2[k]) by {
                    lemma_full_map_lookup(newv, k);
                    lemma_full_map_lookup(origv, k);
                    if k == path@ {
                        if m1.contains_key(k) {
                            let j = choose|j: int|
                                0 <= j < newv.len() && (#[trigger] newv[j]).0 == k;
                            let j2: int = if j < i { j } else { j + 1 };
                            assert(origv[j2].0 == k);
                            assert(j2 != i ==> origv[j2].0 != origv[i as int].0);
                            assert(false);
                        }
                    } else {
                        if m1.contains_key(k) {
                            let j = choose|j: int|
                                0 <= j < newv.len() && (#[trigger] newv[j]).0 == k;
                            let j2: int = if j < i { j } else { j + 1 };
                            assert(origv[j2].0 == k);
                        }
                        if full_map(origv).contains_key(k) {
                            let j = choose|j: int|
                                0 <= j < origv.len() && (#[trigger] origv[j]).0 == k;
                            assert(j != i);
                            let j2: int = if j < i { j } else { j - 1 };
                            assert(newv[j2].0 == k);
                        }
                    }
                }
                assert(m1.dom() =~= m2.dom());
                assert(m1 =~= m2);
            }
            return r;
        }
        i = i + 1;
    }
    proof {
        let m = full_map(origv);
        lemma_full_map_lookup(origv, path@);
        if m.contains_key(path@) {
            let j = choose|j: int| 0 <= j < origv.len() && (#[trigger] origv[j]).0 == path@;
            assert(false);
        }
        assert(m.remove(path@).dom() =~= m.dom());
        assert(m.remove(path@) =~= m);
    }
    r
}

/// Applies one differential to a materialized state.
fn apply_diff_exec(base: Vec<BackupFile>, d: &Vec<DiffFile>) -> (r: Vec<BackupFile>)
    requires
        unique_keys(backup_files_view(base@)),
    ensures
        unique_keys(backup_files_view(r@)),
        full_map(backup_files_view(r@)) =~= apply_diff(
            full_map(backup_files_view(base@)),
            diff_files_view(d@),
        ),
{
    let ghost basem = full_map(backup_files_view(base@));
    let ghost dv = diff_files_view(d@);
    let mut r = base;
    let mut i: usize = 0;
    proof {
        assert(dv.take(0int) =~= Seq::<(Seq<char>, Option<Seq<u8>>)>::empty());
    }
    while i < d.len()
        invariant
            0 <= i <= d.len(),
            dv == diff_files_view(d@),
            dv.len() == d@.len(),
            basem == full_map(backup_files_view(base@)),
            unique_keys(backup_files_view(r@)),
            full_map(backup_files_view(r@)) =~= apply_diff(basem, dv.take(i as int)),
        decreases d.len() - i,
    {
        let e = &d[i];
        proof {
            assert(dv.take(i + 1).drop_last() =~= dv.take(i as int));
            assert(dv.take(i + 1).last() == dv[i as int]);
        }
        match &e.content {
            Some(c) => {
                r = upsert_stored(r, &e.path, c);
            },
            None => {
                r = remove_stored(r, &e.path);
            },
        }
        i = i + 1;
    }
    proof {
        assert(dv.take(d@.len() as int) =~= dv);
    }
    r
}

/// Whether some backup in the history carries an id.
pub open spec fn has_backup_id(l: GameLayout, n: Seq<char>) -> bool {
    (exists|i: int| 0 <= i < l.fulls@.len() && (#[trigger] l.fulls@[i]).id@ == n) || (exists|
        i: int,
        j: int,
    |
        0 <= i < l.fulls@.len() && 0 <= j < l.fulls@[i].children@.len() && (
        #[trigger] l.fulls@[i].children@[j]).id@ == n)
}

impl GameLayout {
    /// Materializes the state a backup denotes: the latest backup's fully
    /// resolved state, or a named full or differential resolved up to itself.
    /// Stored histories must carry unique keys per backup, as back_up
    /// produces them.
    pub fn restore_files(&self, id: &BackupId) -> (r: Option<Vec<BackupFile>>)
        requires
            forall|i: int|
                0 <= i < self.fulls@.len() ==> unique_keys(
                    backup_files_view((#[trigger] self.fulls@[i]).files@),
                ),
        ensures
            r matches Some(v) ==> unique_keys(backup_files_view(v@)),
            (*id) is Latest ==> {
                &&& r is Some <==> self.fulls@.len() > 0
                &&& r matches Some(v) ==> full_map(backup_files_view(v@))
                    =~= self.latest_resolved()
            },
            (*id) matches BackupId::Named(s) ==> {
                &&& r is Some <==> has_backup_id(*self, s@)
                &&& r matches Some(v) ==> ((exists|i: int|
                    0 <= i < self.fulls@.len() && (#[trigger] self.fulls@[i]).id@ == s@
                        && full_map(backup_files_view(v@)) =~= self.fulls@[i].resolve_upto(0))
                    || (exists|i: int, j: int|
                    0 <= i < self.fulls@.len() && 0 <= j < self.fulls@[i].children@.len() && (
                    #[trigger] self.fulls@[i].children@[j]).id@ == s@ && full_map(
                        backup_files_view(v@),
                    ) =~= self.fulls@[i].resolve_upto(j + 1)))
            },
    {
        match id {
            BackupId::Latest => {
                if self.fulls.len() == 0 {
                    return None;
                }
                let f = &self.fulls[self.fulls.len() - 1];
                let upto = f.children.len();
                Some(self.resolve_exec(self.fulls.len() - 1, upto))
            },
            BackupId::Named(s) => {
                let mut i: usize = 0;
                while i < self.fulls.len()
                    invariant
                        0 <= i <= self.fulls@.len(),
                        (*id) matches BackupId::Named(t) && t@ == s@,
                        forall|a: int|
                            0 <= a < self.fulls@.len() ==> unique_keys(
                                backup_files_view((#[trigger] self.fulls@[a]).files@),
                            ),
                        forall|a: int|
                            0 <= a < i ==> (#[trigger] self.fulls@[a]).id@ != s@,
                        forall|a: int, b: int|
                            0 <= a < i && 0 <= b < (#[trigger] self.fulls@[a]).children@.len()
                                ==> (#[trigger] self.fulls@[a].children@[b]).id@ != s@,
                    decreases self.fulls@.len() - i,
                {
                    if crate::text::str_eq(&self.fulls[i].id, s) {
                        let v = self.resolve_exec(i, 0);
                        proof {
                            assert(self.fulls@[i as int].id@ == s@ && full_map(
                                backup_files_view(v@),
                            ) =~= self.fulls@[i as int].resolve_upto(0));
                        }
                        return Some(v);
                    }
                    let mut j: usize = 0;
                    while j < self.fulls[i].children.len()
                        invariant
                            0 <= i < self.fulls@.len(),
                            0 <= j <= self.fulls@[i as int].children@.len(),
                            (*id) matches BackupId::Named(t) && t@ == s@,
                            forall|a: int|
                                0 <= a < self.fulls@.len() ==> unique_keys(
                                    backup_files_view((#[trigger] self.fulls@[a]).files@),
                                ),
                            forall|b: int|
                                0 <= b < j ==> (#[trigger] self.fulls@[i as int].children@[
                                    b
                                ]).id@ != s@,
                        decreases self.fulls@[i as int].children@.len() - j,
                    {
                        if crate::text::str_eq(&self.fulls[i].children[j].id, s) {
                            let v = self.resolve_exec(i, j + 1);
                            return Some(v);
                        }
                        j = j + 1;
                    }
                    i = i + 1;
                }
                proof {
                    if exists|a: int|
                        0 <= a < self.fulls@.len() && (#[trigger] self.fulls@[a]).id@ == s@ {
                        let a = choose|a: int|
                            0 <= a < self.fulls@.len() && (#[trigger] self.fulls@[a]).id@ == s@;
                        assert(false);
                    }
                    if exists|a: int, b: int|
                        0 <= a < self.fulls@.len() && 0 <= b < self.fulls@[a].children@.len()
                            && (#[trigger] self.fulls@[a].children@[b]).id@ == s@ {
                        let (a, b) = choose|a: int, b: int|
                            0 <= a < self.fulls@.len() && 0 <= b < self.fulls@[
                                a
                            ].children@.len() && (#[trigger] self.fulls@[a].children@[b]).id@
                                == s@;
                        assert(false);
                    }
                }
                None
            },
        }
    }

    /// Materializes one full backup with its first upto differentials.
    fn resolve_exec(&self, fi: usize, upto: usize) -> (r: Vec<BackupFile>)
        requires
            fi < self.fulls@.len(),
            upto <= self.fulls@[fi as int].children@.len(),
            unique_keys(backup_files_view(self.fulls@[fi as int].files@)),
        ensures
            unique_keys(backup_files_view(r@)),
            full_map(backup_files_view(r@)) =~= self.fulls@[fi as int].resolve_upto(upto as int),
    {
        let f = &self.fulls[fi];
        let mut r = copy_stored(&f.files);
        let mut j: usize = 0;
        while j < upto
            invariant
                0 <= j <= upto,
                fi < self.fulls@.len(),
                upto <= self.fulls@[fi as int].children@.len(),
                unique_keys(backup_files_view(r@)),
                full_map(backup_files_view(r@)) =~= self.fulls@[fi as int].resolve_upto(j as int),
            decreases upto - j,
        {
            r = apply_diff_exec(r, &self.fulls[fi].children[j].files);
            j = j + 1;
        }
        r
    }
}


/// The filesystem-safe form of a game name: lowercase letters, digits and
/// dashes, with uppercase letters lowered and every other character replaced
/// by a dash.
pub open spec fn sanitized_chars(s: Seq<char>) -> Seq<char>
    decreases s.len(),
{
    if s.len() == 0 {
        Seq::empty()
    } else {
        let rest = sanitized_chars(s.drop_last());
        let c = s.last();
        if ('a' <= c && c <= 'z') || ('0' <= c && c <= '9') || c == '-' {
            rest + seq![c]
        } else if 'A' <= c && c <= 'Z' {
            rest + seq![(((c as u32) + 32) as char)]
        } else {
            rest + seq!['-']
        }
    }
}

/// Renders a game name as its backup subdirectory name.
pub fn sanitize_name(s: &String) -> (r: String)
    ensures
        r@ == sanitized_chars(s@),
{
    let cs = crate::text::chars_of(s.as_str());
    let mut out: Vec<char> = Vec::new();
    let mut i: usize = 0;
    proof {
        assert(out@ =~= sanitized_chars(s@.take(0int)));
    }
    while i < cs.len()
        invariant
            0 <= i <= cs.len(),
            cs@ == s@,
            out@ == sanitized_chars(s@.take(i as int)),
        decreases cs.len() - i,
    {
        let c = cs[i];
        proof {
            assert(s@.take(i + 1).drop_last() =~= s@.take(i as int));
            assert(s@.take(i + 1).last() == s@[i as int]);
        }
        if ('a' <= c && c <= 'z') || ('0' <= c && c <= '9') || c == '-' {
            out.push(c);
        } else if 'A' <= c && c <= 'Z' {
            let lowered = ((c as u8) + 32) as char;
            proof {
                vstd::utf8::char_u32_cast(lowered, lowered as u32);
                assert(lowered == (((c as u32) + 32) as char));
            }
            out.push(lowered);
        } else {
            out.push('-');
        }
        proof {
            assert(out@ =~= sanitized_chars(s@.take(i + 1)));
        }
        i = i + 1;
    }
    proof {
        assert(s@.take(cs@.len() as int) =~= s@);
    }
    crate::text::string_of(&out)
}

/// Retention bound: a well-formed history never holds more fulls than the
/// policy allows, nor more differentials under any full; back_up keeps this,
/// so it holds after any sequence of backups.
pub proof fn lemma_retention_bound(l: GameLayout)
    requires
        l.wf(),
    ensures
        l.fulls@.len() <= l.retention.full,
        forall|i: int|
            0 <= i < l.fulls@.len() ==> (#[trigger] l.fulls@[i]).children@.len()
                <= l.retention.differential,
{
}

/// Round trip: when a backup of a scan leaves the latest backup resolving to
/// the scanned live state, and a restore materializes that resolved state,
/// the restored bytes are exactly the scanned bytes.
pub proof fn lemma_backup_restore_round_trip(
    after: GameLayout,
    scanned: Seq<ScannedFile>,
    restored: Seq<BackupFile>,
)
    requires
        after.fulls@.len() > 0,
        after.latest_resolved() =~= live_map(scanned),
        full_map(backup_files_view(restored)) =~= after.latest_resolved(),
    ensures
        full_map(backup_files_view(restored)) =~= live_map(scanned),
{
}

/// Differential consistency: the state a full resolves to is, by definition,
/// its file set with the differentials applied in order; back_up guarantees
/// it equals the live state its last differential was scanned from.
pub proof fn lemma_differential_chain(f: FullBackup, k: int)
    requires
        0 < k <= f.children@.len(),
    ensures
        f.resolve_upto(k) == apply_diff(
            f.resolve_upto(k - 1),
            diff_files_view(f.children@[k - 1].files@),
        ),
{
}

} // verus!
