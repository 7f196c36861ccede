use vstd::prelude::*;

use crate::text::{lex_le, sorted_strings};

verus! {

/// Whether a game was processed or skipped by its enablement toggle.
#[derive(Clone, Copy, PartialEq, Eq, Structural, Debug)]
pub enum OperationStepDecision {
    Processed,
    Ignored,
}

/// The key results are ordered by before reporting.
#[derive(Clone, Copy, PartialEq, Eq, Structural, Debug)]
pub enum SortKey {
    Name,
    Size,
    Status,
}

/// The configured ordering of the report.
#[derive(Clone, Copy, PartialEq, Eq, Structural, Debug)]
pub struct Sort {
    pub key: SortKey,
    pub reversed: bool,
}

/// What the report needs of one game's outcome.
pub struct GameRow {
    pub name: String,
    pub size: u64,
    pub failed: bool,
}

/// The report order: by name, by total size then name, or with failed games
/// after clean ones and names breaking ties.
pub open spec fn row_le(key: SortKey, a: GameRow, b: GameRow) -> bool {
    match key {
        SortKey::Name => lex_le(a.name@, b.name@),
        SortKey::Size => a.size < b.size || (a.size == b.size && lex_le(a.name@, b.name@)),
        SortKey::Status => (!a.failed && b.failed) || (a.failed == b.failed && lex_le(
            a.name@,
            b.name@,
        )),
    }
}

pub proof fn lemma_row_le_total(key: SortKey, a: GameRow, b: GameRow)
    ensures
        row_le(key, a, b) || row_le(key, b, a),
{
    crate::text::lemma_lex_le_total(a.name@, b.name@);
}

pub proof fn lemma_row_le_trans(key: SortKey, a: GameRow, b: GameRow, c: GameRow)
    requires
        row_le(key, a, b),
        row_le(key, b, c),
    ensures
        row_le(key, a, c),
{
    if lex_le(a.name@, b.name@) && lex_le(b.name@, c.name@) {
        crate::text::lemma_lex_le_trans(a.name@, b.name@, c.name@);
    }
}

pub open spec fn rows_sorted(key: SortKey, s: Seq<GameRow>) -> bool {
    forall|i: int, j: int|
        0 <= i < j < s.len() ==> row_le(key, #[trigger] s[i], #[trigger] s[j])
}

/// Orders the finished rows by the configured key, keeping every row.
pub fn sort_rows(rows: Vec<GameRow>, key: SortKey) -> (r: Vec<GameRow>)
    ensures
        rows_sorted(key, r@),
        r@.to_multiset() == rows@.to_multiset(),
        r@.len() == rows@.len(),
{
    broadcast use vstd::seq_lib::group_to_multiset_ensures;

    let mut r: Vec<GameRow> = Vec::new();
    let mut i: usize = 0;
    proof {
        assert(r@ =~= rows@.take(0int));
    }
    while i < rows.len()
        invariant
            0 <= i <= rows@.len(),
            rows_sorted(key, r@),
            r@.to_multiset() == rows@.take(i as int).to_multiset(),
            r@.len() == i,
        decreases rows@.len() - i,
    {
        let x = GameRow {
            name: rows[i].name.clone(),
            size: rows[i].size,
            failed: rows[i].failed,
        };
        proof {
            assert(x.name@ == rows@[i as int].name@);
        }
        let ghost xg = x;
        r = insert_row(r, x, key);
        proof {
            vstd::seq_lib::to_multiset_build(rows@.take(i as int), rows@[i as int]);
            assert(rows@.take(i as int).push(rows@[i as int]) =~= rows@.take(i + 1));
            assert(r@.to_multiset() == rows@.take(i as int).to_multiset().insert(xg));
        }
        i = i + 1;
    }
    proof {
        assert(rows@.take(rows@.len() as int) =~= rows@);
    }
    r
}

fn insert_row(v: Vec<GameRow>, x: GameRow, key: SortKey) -> (r: Vec<GameRow>)
    requires
        rows_sorted(key, v@),
    ensures
        rows_sorted(key, r@),
        r@.to_multiset() == v@.to_multiset().insert(x),
        r@.len() == v@.len() + 1,
{
    let ghost xg = x;
    let mut r = v;
    let mut pos: usize = 0;
    loop
        invariant
            0 <= pos <= r.len(),
            rows_sorted(key, r@),
            forall|j: int| 0 <= j < pos ==> row_le(key, #[trigger] r@[j], xg),
            xg == x,
        ensures
            0 <= pos <= r.len(),
            forall|j: int| 0 <= j < pos ==> row_le(key, #[trigger] r@[j], xg),
            pos < r.len() ==> row_le(key, xg, r@[pos as int]),
        decreases r.len() - pos,
    {
        if pos == r.len() {
            break ;
        }
        let before = row_le_exec(&x, &r[pos], key);
        if !before {
            proof {
                lemma_row_le_total(key, xg, r@[pos as int]);
            }
            pos = pos + 1;
        } else {
            break ;
        }
    }
    let ghost before = r@;
    let ghost p = pos as int;
    r.insert(pos, x);
    proof {
        vstd::seq_lib::to_multiset_insert(before, p, xg);
        assert(r@ == before.insert(p, xg));
        assert forall|i: int, j: int| 0 <= i < j < r@.len() implies row_le(
            key,
            #[trigger] r@[i],
            #[trigger] r@[j],
        ) by {
            assert(forall|k: int| 0 <= k < p ==> #[trigger] r@[k] == before[k]);
            assert(r@[p] == xg);
            assert(forall|k: int| p < k < r@.len() ==> #[trigger] r@[k] == before[k - 1]);
            if j < p {
            } else if j == p {
                assert(row_le(key, before[i], xg));
            } else if i == p {
                if j - 1 == p {
                    assert(row_le(key, xg, before[p]));
                } else {
                    assert(row_le(key, xg, before[p]));
                    assert(row_le(key, before[p], before[j - 1]));
                    lemma_row_le_trans(key, xg, before[p], before[j - 1]);
                }
            } else if i < p {
                assert(row_le(key, before[i], before[j - 1]));
            } else {
                assert(row_le(key, before[i - 1], before[j - 1]));
            }
        }
    }
    r
}

/// Decides the report order between two rows.
fn row_le_exec(a: &GameRow, b: &GameRow, key: SortKey) -> (r: bool)
    ensures
        r == row_le(key, *a, *b),
{
    match key {
        SortKey::Name => crate::text::str_le(&a.name, &b.name),
        SortKey::Size => {
            if a.size < b.size {
                true
            } else if a.size == b.size {
                crate::text::str_le(&a.name, &b.name)
            } else {
                false
            }
        },
        SortKey::Status => {
            if !a.failed && b.failed {
                true
            } else if a.failed == b.failed {
                crate::text::str_le(&a.name, &b.name)
            } else {
                false
            }
        },
    }
}

/// Reverses the finished rows, for a descending report.
pub fn reverse_rows(rows: Vec<GameRow>) -> (r: Vec<GameRow>)
    ensures
        r@.len() == rows@.len(),
        forall|i: int| 0 <= i < rows@.len() ==> r@[i] == rows@[rows@.len() - 1 - i],
{
    let mut r: Vec<GameRow> = Vec::new();
    let mut i: usize = rows.len();
    while i > 0
        invariant
            0 <= i <= rows@.len(),
            r@.len() == rows@.len() - i,
            forall|j: int| 0 <= j < r@.len() ==> r@[j] == rows@[rows@.len() - 1 - j],
        decreases i,
    {
        i = i - 1;
        r.push(GameRow {
            name: rows[i].name.clone(),
            size: rows[i].size,
            failed: rows[i].failed,
        });
        proof {
            assert(r@[r@.len() - 1].name@ == rows@[i as int].name@);
        }
    }
    r
}

/// Orders the rows by the configured sort: by its key, reversed when asked,
/// keeping every row either way.
pub fn sort_rows_directed(rows: Vec<GameRow>, sort: Sort) -> (r: Vec<GameRow>)
    ensures
        r@.len() == rows@.len(),
        r@.to_multiset() == rows@.to_multiset(),
        !sort.reversed ==> rows_sorted(sort.key, r@),
        sort.reversed ==> rows_sorted(sort.key, r@.reverse()),
{
    let sorted = sort_rows(rows, sort.key);
    if sort.reversed {
        let ghost sortedg = sorted@;
        let r = reverse_rows(sorted);
        proof {
            assert(r@.reverse() =~= sortedg);
            r@.lemma_reverse_to_multiset();
        }
        r
    } else {
        sorted
    }
}

/// Accumulates per-game outcomes and the operation-wide trip flags.
pub struct Reporter {
    pub machine: bool,
    pub unknown_games: Vec<String>,
    pub cloud_conflict: bool,
    pub cloud_sync_failed: bool,
    pub rows: Vec<GameRow>,
    pub failures: u64,
}

impl Reporter {
    /// A human-readable reporter.
    pub fn standard() -> (r: Reporter)
        ensures
            !r.machine,
            r.rows@.len() == 0,
            r.failures == 0,
            !r.cloud_conflict,
            !r.cloud_sync_failed,
            r.unknown_games@.len() == 0,
    {
        Reporter {
            machine: false,
            unknown_games: Vec::new(),
            cloud_conflict: false,
            cloud_sync_failed: false,
            rows: Vec::new(),
            failures: 0,
        }
    }

    /// A machine-readable reporter.
    pub fn json() -> (r: Reporter)
        ensures
            r.machine,
            r.rows@.len() == 0,
            r.failures == 0,
            !r.cloud_conflict,
            !r.cloud_sync_failed,
            r.unknown_games@.len() == 0,
    {
        Reporter {
            machine: true,
            unknown_games: Vec::new(),
            cloud_conflict: false,
            cloud_sync_failed: false,
            rows: Vec::new(),
            failures: 0,
        }
    }

    /// Records the requested names that matched nothing.
    pub fn trip_unknown_games(&mut self, games: Vec<String>)
        ensures
            final(self).unknown_games@ == games@,
            final(self).machine == old(self).machine,
            final(self).cloud_conflict == old(self).cloud_conflict,
            final(self).cloud_sync_failed == old(self).cloud_sync_failed,
            final(self).rows@ == old(self).rows@,
            final(self).failures == old(self).failures,
    {
        self.unknown_games = games;
    }

    /// Records that the preview found remote changes.
    pub fn trip_cloud_conflict(&mut self)
        ensures
            final(self).cloud_conflict,
            final(self).machine == old(self).machine,
            final(self).unknown_games@ == old(self).unknown_games@,
            final(self).cloud_sync_failed == old(self).cloud_sync_failed,
            final(self).rows@ == old(self).rows@,
            final(self).failures == old(self).failures,
    {
        self.cloud_conflict = true;
    }

    /// Records that a synchronization pass failed.
    pub fn trip_cloud_sync_failed(&mut self)
        ensures
            final(self).cloud_sync_failed,
            final(self).machine == old(self).machine,
            final(self).unknown_games@ == old(self).unknown_games@,
            final(self).cloud_conflict == old(self).cloud_conflict,
            final(self).rows@ == old(self).rows@,
            final(self).failures == old(self).failures,
    {
        self.cloud_sync_failed = true;
    }

    /// Takes one game's outcome; the result says whether the game was clean,
    /// and a failed game is counted toward the overall status.
    pub fn add_game(&mut self, row: GameRow) -> (ok: bool)
        requires
            old(self).failures < u64::MAX,
        ensures
            ok == !row.failed,
            final(self).rows@ == old(self).rows@.push(row),
            final(self).failures == old(self).failures + if row.failed {
                1u64
            } else {
                0u64
            },
            final(self).machine == old(self).machine,
            final(self).unknown_games@ == old(self).unknown_games@,
            final(self).cloud_conflict == old(self).cloud_conflict,
            final(self).cloud_sync_failed == old(self).cloud_sync_failed,
    {
        let failed = row.failed;
        self.rows.push(row);
        if failed {
            self.failures = self.failures + 1;
        }
        !failed
    }

    /// Whether the whole operation succeeded: no per-game failure and no
    /// unknown game.
    pub fn overall_success(&self) -> (r: bool)
        ensures
            r == (self.failures == 0 && self.unknown_games@.len() == 0),
    {
        self.failures == 0 && self.unknown_games.len() == 0
    }
}

} // verus!
