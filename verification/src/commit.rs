use vstd::prelude::*;

verus! {

/// One step of writing a backup to disk: new data files go first, then the
/// mapping commits in a single rename, then pruned data is deleted.
pub enum DiskOp {
    WriteData { path: Seq<char> },
    WriteMapping { refs: Set<Seq<char>> },
    DeleteData { path: Seq<char> },
}

/// What is on disk: the data files present, and the paths the committed
/// mapping references.
pub struct DiskModel {
    pub present: Set<Seq<char>>,
    pub mapping_refs: Set<Seq<char>>,
}

impl DiskModel {
    /// The mapping references only files that are present.
    pub open spec fn consistent(self) -> bool {
        forall|p: Seq<char>| self.mapping_refs.contains(p) ==> self.present.contains(p)
    }
}

/// The effect of one step on the disk.
pub open spec fn apply_op(s: DiskModel, op: DiskOp) -> DiskModel {
    match op {
        DiskOp::WriteData { path } => DiskModel {
            present: s.present.insert(path),
            mapping_refs: s.mapping_refs,
        },
        DiskOp::WriteMapping { refs } => DiskModel { present: s.present, mapping_refs: refs },
        DiskOp::DeleteData { path } => DiskModel {
            present: s.present.remove(path),
            mapping_refs: s.mapping_refs,
        },
    }
}

pub open spec fn apply_ops(s: DiskModel, ops: Seq<DiskOp>) -> DiskModel
    decreases ops.len(),
{
    if ops.len() == 0 {
        s
    } else {
        apply_op(apply_ops(s, ops.drop_last()), ops.last())
    }
}

/// The steps a backup takes: write each new data file, commit the new
/// mapping, delete each pruned file.
pub open spec fn commit_ops(
    new_files: Seq<Seq<char>>,
    new_refs: Set<Seq<char>>,
    pruned: Seq<Seq<char>>,
) -> Seq<DiskOp> {
    new_files.map_values(|p: Seq<char>| DiskOp::WriteData { path: p }) + seq![
        DiskOp::WriteMapping { refs: new_refs },
    ] + pruned.map_values(|p: Seq<char>| DiskOp::DeleteData { path: p })
}

/// Crash safety of the write discipline: start from a consistent disk, write
/// a backup whose new mapping references only files already present or
/// written by it, and delete only files the new mapping does not reference.
/// Then after any prefix of the steps, the committed mapping still references
/// only files present on disk: a crash at any point leaves the previous or
/// the new mapping authoritative, never one naming a missing file.
pub proof fn lemma_commit_prefix_consistent(
    s0: DiskModel,
    new_files: Seq<Seq<char>>,
    new_refs: Set<Seq<char>>,
    pruned: Seq<Seq<char>>,
    k: int,
)
    requires
        s0.consistent(),
        forall|p: Seq<char>|
            new_refs.contains(p) ==> s0.present.contains(p) || new_files.contains(p),
        forall|i: int| 0 <= i < pruned.len() ==> !new_refs.contains(#[trigger] pruned[i]),
        0 <= k <= commit_ops(new_files, new_refs, pruned).len(),
    ensures
        apply_ops(s0, commit_ops(new_files, new_refs, pruned).take(k)).consistent(),
    decreases k,
{
    let ops = commit_ops(new_files, new_refs, pruned);
    if k > 0 {
        lemma_commit_prefix_consistent(s0, new_files, new_refs, pruned, k - 1);
        let prev = apply_ops(s0, ops.take(k - 1));
        assert(ops.take(k).drop_last() =~= ops.take(k - 1));
        assert(apply_ops(s0, ops.take(k)) == apply_op(prev, ops[k - 1]));
        let n = new_files.len() as int;
        lemma_phase_state(s0, new_files, new_refs, pruned, k - 1);
        if k - 1 < n {
            assert(ops[k - 1] == (DiskOp::WriteData { path: new_files[k - 1] }));
        } else if k - 1 == n {
            assert(ops[k - 1] == (DiskOp::WriteMapping { refs: new_refs }));
            assert forall|p: Seq<char>| new_refs.contains(p) implies prev.present.contains(
                p,
            ) by {
                if new_files.contains(p) {
                    let i = choose|i: int| 0 <= i < new_files.len() && new_files[i] == p;
                }
            }
        } else {
            assert(ops[k - 1] == (DiskOp::DeleteData { path: pruned[k - 1 - n - 1] }));
            assert(!new_refs.contains(pruned[k - 1 - n - 1]));
        }
    }
}

/// What each phase of the steps guarantees about the intermediate state: the
/// written files accumulate, and once committed the mapping is the new one.
proof fn lemma_phase_state(
    s0: DiskModel,
    new_files: Seq<Seq<char>>,
    new_refs: Set<Seq<char>>,
    pruned: Seq<Seq<char>>,
    k: int,
)
    requires
        0 <= k <= commit_ops(new_files, new_refs, pruned).len(),
        forall|i: int| 0 <= i < pruned.len() ==> !new_refs.contains(#[trigger] pruned[i]),
    ensures
        k <= new_files.len() ==> ({
            let st = apply_ops(s0, commit_ops(new_files, new_refs, pruned).take(k));
            &&& st.mapping_refs == s0.mapping_refs
            &&& forall|p: Seq<char>| s0.present.contains(p) ==> st.present.contains(p)
            &&& forall|i: int|
                0 <= i < k ==> st.present.contains(#[trigger] new_files[i])
        }),
        k > new_files.len() ==> ({
            let st = apply_ops(s0, commit_ops(new_files, new_refs, pruned).take(k));
            &&& st.mapping_refs == new_refs
            &&& forall|p: Seq<char>|
                new_refs.contains(p) && (s0.present.contains(p) || new_files.contains(p))
                    ==> st.present.contains(p)
        }),
    decreases k,
{
    let ops = commit_ops(new_files, new_refs, pruned);
    let n = new_files.len() as int;
    if k > 0 {
        lemma_phase_state(s0, new_files, new_refs, pruned, k - 1);
        let prev = apply_ops(s0, ops.take(k - 1));
        assert(ops.take(k).drop_last() =~= ops.take(k - 1));
        assert(apply_ops(s0, ops.take(k)) == apply_op(prev, ops[k - 1]));
        if k - 1 < n {
            assert(ops[k - 1] == (DiskOp::WriteData { path: new_files[k - 1] }));
        } else if k - 1 == n {
            assert(ops[k - 1] == (DiskOp::WriteMapping { refs: new_refs }));
            assert forall|p: Seq<char>|
                new_refs.contains(p) && (s0.present.contains(p) || new_files.contains(
                    p,
                )) implies apply_ops(s0, ops.take(k)).present.contains(p) by {
                if new_files.contains(p) {
                    let i = choose|i: int| 0 <= i < new_files.len() && new_files[i] == p;
                }
            }
        } else {
            assert(ops[k - 1] == (DiskOp::DeleteData { path: pruned[k - 1 - n - 1] }));
            assert(!new_refs.contains(pruned[k - 1 - n - 1]));
        }
    }
}

} // verus!
