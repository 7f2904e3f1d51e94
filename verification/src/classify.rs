//! Stale-subtree classifier: a bottom-up reduction that collapses a
//! directory subtree into the smallest set of uppermost directories whose
//! entire contents were last accessed before a cutoff instant.
use vstd::prelude::*;

verus! {

/// A filesystem subtree, as observed by a single walk that never follows
/// symlinks. Access times are instants on an arbitrary monotone scale
/// (the callers use seconds since the epoch); sizes are bytes.
pub enum FsTree {
    /// A regular file with a known last-access instant.
    File { atime: u64, size: u64, uid: u32 },
    /// A directory whose children were listed successfully.
    Dir { uid: u32, entries: Vec<DirEntry> },
    /// A symbolic link: never followed, never reported, and never stale,
    /// so it keeps its parent directory from collapsing.
    Symlink,
    /// An entry excluded from both stale and fresh accounting: its
    /// metadata, listing, or access time could not be read, or it is
    /// neither a file, a directory, nor a symlink. Such an entry does not
    /// by itself keep an ancestor from collapsing.
    Skipped,
}

/// A named child of a directory.
pub struct DirEntry {
    pub name: String,
    pub node: FsTree,
}

/// True when every reported part of the subtree was last accessed strictly
/// before `cutoff`: files must be stale, symlinks never qualify, skipped
/// entries do not count, and a directory qualifies when all its children do
/// (an empty directory is wholly stale).
pub open spec fn wholly_stale(t: FsTree, cutoff: u64) -> bool
    decreases t,
{
    match t {
        FsTree::File { atime, .. } => atime < cutoff,
        FsTree::Dir { entries, .. } => forall|i: int|
            0 <= i < entries@.len() ==> wholly_stale(#[trigger] entries@[i].node, cutoff),
        FsTree::Symlink => false,
        FsTree::Skipped => true,
    }
}

/// Sum of the sizes of all stale files in the subtree; fresh files are
/// invisible to the sum, since only stale content is reported.
pub open spec fn stale_size(t: FsTree, cutoff: u64) -> int
    decreases t,
{
    match t {
        FsTree::File { atime, size, .. } => if atime < cutoff { size as int } else { 0 },
        FsTree::Dir { entries, .. } => stale_size_of_entries(entries@, cutoff),
        _ => 0,
    }
}

/// Sum of `stale_size` over a sequence of directory entries.
pub open spec fn stale_size_of_entries(s: Seq<DirEntry>, cutoff: u64) -> int
    decreases s,
{
    if s.len() == 0 {
        0
    } else {
        stale_size(s[0].node, cutoff) + stale_size_of_entries(s.drop_first(), cutoff)
    }
}

/// One reported path: either a collapsed wholly-stale directory (`summary`
/// is true, `size` aggregates every stale file beneath it) or a single
/// stale file. `uid` is the owner of the reported path itself.
pub struct AggregateRecord {
    pub path: String,
    pub uid: u32,
    pub size: u64,
    pub summary: bool,
}

/// The mathematical shadow of an `AggregateRecord`.
pub struct RecordModel {
    pub path: Seq<char>,
    pub uid: u32,
    pub size: u64,
    pub summary: bool,
}

impl View for AggregateRecord {
    type V = RecordModel;

    open spec fn view(&self) -> RecordModel {
        RecordModel { path: self.path@, uid: self.uid, size: self.size, summary: self.summary }
    }
}

/// The views of a sequence of records.
pub open spec fn records_view(s: Seq<AggregateRecord>) -> Seq<RecordModel> {
    s.map_values(|r: AggregateRecord| r@)
}

/// The path of a directory entry named `name` under `parent`.
pub open spec fn child_path(parent: Seq<char>, name: Seq<char>) -> Seq<char> {
    parent + "/"@ + name
}

/// What the classifier reports for the subtree `t` rooted at `path`: a
/// wholly-stale subtree collapses into one summary record carrying its
/// aggregate stale size; anything else is reported as the concatenation,
/// in traversal order, of what its children report. Stale files become
/// individual records; symlinks and skipped entries are never reported.
pub open spec fn classify_spec(path: Seq<char>, t: FsTree, cutoff: u64) -> Seq<RecordModel>
    decreases t,
{
    match t {
        FsTree::File { atime, size, uid } => if atime < cutoff {
            seq![RecordModel { path, uid, size, summary: false }]
        } else {
            Seq::empty()
        },
        FsTree::Dir { uid, entries } => if wholly_stale(t, cutoff) {
            seq![
                RecordModel {
                    path,
                    uid,
                    size: stale_size(t, cutoff) as u64,
                    summary: true,
                },
            ]
        } else {
            classify_entries(path, entries@, cutoff)
        },
        _ => Seq::empty(),
    }
}

/// Concatenation of `classify_spec` over a directory's entries, in order.
pub open spec fn classify_entries(path: Seq<char>, s: Seq<DirEntry>, cutoff: u64) -> Seq<
    RecordModel,
>
    decreases s,
{
    if s.len() == 0 {
        Seq::empty()
    } else {
        classify_spec(child_path(path, s[0].name@), s[0].node, cutoff) + classify_entries(
            path,
            s.drop_first(),
            cutoff,
        )
    }
}

/// A stale size is never negative.
pub proof fn lemma_stale_size_nonneg(t: FsTree, cutoff: u64)
    ensures
        stale_size(t, cutoff) >= 0,
    decreases t,
{
    match t {
        FsTree::Dir { entries, .. } => {
            lemma_stale_size_of_entries_nonneg(entries@, cutoff);
        },
        _ => {},
    }
}

/// A sum of stale sizes is never negative.
pub proof fn lemma_stale_size_of_entries_nonneg(s: Seq<DirEntry>, cutoff: u64)
    ensures
        stale_size_of_entries(s, cutoff) >= 0,
    decreases s,
{
    if s.len() > 0 {
        lemma_stale_size_nonneg(s[0].node, cutoff);
        lemma_stale_size_of_entries_nonneg(s.drop_first(), cutoff);
    }
}

/// Stale-size sums split over concatenation.
proof fn lemma_stale_size_of_entries_concat(a: Seq<DirEntry>, b: Seq<DirEntry>, cutoff: u64)
    ensures
        stale_size_of_entries(a + b, cutoff) == stale_size_of_entries(a, cutoff)
            + stale_size_of_entries(b, cutoff),
    decreases a,
{
    if a.len() == 0 {
        assert(a + b =~= b);
    } else {
        assert((a + b).drop_first() =~= a.drop_first() + b);
        lemma_stale_size_of_entries_concat(a.drop_first(), b, cutoff);
    }
}

/// Extending a prefix of an entry sequence by one adds that entry's
/// stale size to the prefix sum.
proof fn lemma_stale_size_take_succ(s: Seq<DirEntry>, i: int, cutoff: u64)
    requires
        0 <= i < s.len(),
    ensures
        stale_size_of_entries(s.take(i + 1), cutoff) == stale_size_of_entries(s.take(i), cutoff)
            + stale_size(s[i].node, cutoff),
{
    assert(s.take(i + 1) =~= s.take(i) + seq![s[i]]);
    lemma_stale_size_of_entries_concat(s.take(i), seq![s[i]], cutoff);
    assert(seq![s[i]].drop_first() =~= Seq::<DirEntry>::empty());
    assert(stale_size_of_entries(Seq::<DirEntry>::empty(), cutoff) == 0);
    assert(stale_size_of_entries(seq![s[i]], cutoff) == stale_size(s[i].node, cutoff));
}

/// Classification distributes over concatenation of entry sequences.
proof fn lemma_classify_entries_concat(
    path: Seq<char>,
    a: Seq<DirEntry>,
    b: Seq<DirEntry>,
    cutoff: u64,
)
    ensures
        classify_entries(path, a + b, cutoff) == classify_entries(path, a, cutoff)
            + classify_entries(path, b, cutoff),
    decreases a,
{
    if a.len() == 0 {
        assert(a + b =~= b);
        assert(classify_entries(path, a, cutoff) + classify_entries(path, b, cutoff)
            =~= classify_entries(path, b, cutoff));
    } else {
        assert((a + b).drop_first() =~= a.drop_first() + b);
        lemma_classify_entries_concat(path, a.drop_first(), b, cutoff);
        assert(classify_entries(path, a + b, cutoff) =~= classify_entries(path, a, cutoff)
            + classify_entries(path, b, cutoff));
    }
}

/// Extending a prefix of an entry sequence by one appends that entry's
/// report to the prefix report.
proof fn lemma_classify_entries_take_succ(path: Seq<char>, s: Seq<DirEntry>, i: int, cutoff: u64)
    requires
        0 <= i < s.len(),
    ensures
        classify_entries(path, s.take(i + 1), cutoff) == classify_entries(path, s.take(i), cutoff)
            + classify_spec(child_path(path, s[i].name@), s[i].node, cutoff),
{
    assert(s.take(i + 1) =~= s.take(i) + seq![s[i]]);
    lemma_classify_entries_concat(path, s.take(i), seq![s[i]], cutoff);
    assert(seq![s[i]].drop_first() =~= Seq::<DirEntry>::empty());
    assert(classify_entries(path, Seq::<DirEntry>::empty(), cutoff) =~= Seq::<
        RecordModel,
    >::empty());
    assert(classify_entries(path, seq![s[i]], cutoff) =~= classify_spec(
        child_path(path, s[i].name@),
        s[i].node,
        cutoff,
    ));
}

/// Recursive worker: returns the records for the subtree at `path`,
/// whether the subtree is wholly stale, and its aggregate stale size.
fn classify_rec(path: &String, t: &FsTree, cutoff: u64) -> (r: (Vec<AggregateRecord>, bool, u64))
    requires
        stale_size(*t, cutoff) <= u64::MAX,
    ensures
        records_view(r.0@) == classify_spec(path@, *t, cutoff),
        r.1 == wholly_stale(*t, cutoff),
        r.2 == stale_size(*t, cutoff),
    decreases *t,
{
    match t {
        FsTree::File { atime, size, uid } => {
            if *atime < cutoff {
                let rec = AggregateRecord {
                    path: path.clone(),
                    uid: *uid,
                    size: *size,
                    summary: false,
                };
                let mut v: Vec<AggregateRecord> = Vec::new();
                v.push(rec);
                assert(records_view(v@) =~= classify_spec(path@, *t, cutoff));
                (v, true, *size)
            } else {
                let v: Vec<AggregateRecord> = Vec::new();
                assert(records_view(v@) =~= classify_spec(path@, *t, cutoff));
                (v, false, 0)
            }
        },
        FsTree::Symlink => {
            let v: Vec<AggregateRecord> = Vec::new();
            assert(records_view(v@) =~= classify_spec(path@, *t, cutoff));
            (v, false, 0)
        },
        FsTree::Skipped => {
            let v: Vec<AggregateRecord> = Vec::new();
            assert(records_view(v@) =~= classify_spec(path@, *t, cutoff));
            (v, true, 0)
        },
        FsTree::Dir { uid, entries } => {
            let mut recs: Vec<AggregateRecord> = Vec::new();
            let mut all_stale = true;
            let mut total: u64 = 0;
            let mut i: usize = 0;
            proof {
                assert(records_view(recs@) =~= classify_entries(
                    path@,
                    entries@.take(0),
                    cutoff,
                ));
            }
            while i < entries.len()
                invariant
                    0 <= i <= entries@.len(),
                    stale_size(*t, cutoff) <= u64::MAX,
                    *t == (FsTree::Dir { uid: *uid, entries: *entries }),
                    all_stale == (forall|j: int|
                        0 <= j < i ==> wholly_stale(#[trigger] entries@[j].node, cutoff)),
                    total == stale_size_of_entries(entries@.take(i as int), cutoff),
                    records_view(recs@) == classify_entries(path@, entries@.take(i as int), cutoff),
                decreases entries@.len() - i,
            {
                proof {
                    lemma_entries_prefix_bound(entries@, i as int, cutoff);
                    lemma_entries_prefix_bound(entries@, i as int + 1, cutoff);
                    lemma_stale_size_take_succ(entries@, i as int, cutoff);
                    lemma_stale_size_nonneg(entries@[i as int].node, cutoff);
                    lemma_stale_size_of_entries_nonneg(entries@.take(i as int), cutoff);
                    lemma_stale_size_of_entries_nonneg(entries@.skip(i as int + 1), cutoff);
                }
                let entry = &entries[i];
                let mut cp = path.clone();
                cp.append("/");
                cp.append(entry.name.as_str());
                let (mut sub, sub_stale, sub_size) = classify_rec(&cp, &entry.node, cutoff);
                proof {
                    lemma_classify_entries_take_succ(path@, entries@, i as int, cutoff);
                    assert(records_view(recs@ + sub@) =~= records_view(recs@) + records_view(
                        sub@,
                    ));
                }
                recs.append(&mut sub);
                all_stale = all_stale && sub_stale;
                total = total + sub_size;
                i = i + 1;
            }
            proof {
                assert(entries@.take(entries@.len() as int) =~= entries@);
            }
            if all_stale {
                let rec = AggregateRecord { path: path.clone(), uid: *uid, size: total, summary: true };
                let mut v: Vec<AggregateRecord> = Vec::new();
                v.push(rec);
                assert(records_view(v@) =~= classify_spec(path@, *t, cutoff));
                (v, true, total)
            } else {
                (recs, false, total)
            }
        },
    }
}

/// The stale size of any prefix of an entry sequence, together with the
/// rest of the sequence, accounts for the whole sum; since both parts are
/// nonnegative, each is bounded by the whole.
proof fn lemma_entries_prefix_bound(s: Seq<DirEntry>, i: int, cutoff: u64)
    requires
        0 <= i <= s.len(),
    ensures
        stale_size_of_entries(s, cutoff) == stale_size_of_entries(s.take(i), cutoff)
            + stale_size_of_entries(s.skip(i), cutoff),
{
    assert(s =~= s.take(i) + s.skip(i));
    lemma_stale_size_of_entries_concat(s.take(i), s.skip(i), cutoff);
}

/// Classifies the tree rooted at `root_path`: reports the uppermost
/// wholly-stale directories as single summary records and every other
/// stale file individually, and returns the total stale size beneath the
/// root as a second result. The output is a function of the tree and the
/// cutoff alone, so an unchanged tree classified twice with the same
/// cutoff yields identical output.
pub fn classify(root_path: &str, tree: &FsTree, cutoff: u64) -> (r: (Vec<AggregateRecord>, u64))
    requires
        stale_size(*tree, cutoff) <= u64::MAX,
    ensures
        records_view(r.0@) == classify_spec(root_path@, *tree, cutoff),
        r.1 == stale_size(*tree, cutoff),
{
    let p = root_path.to_owned();
    let (recs, _, total) = classify_rec(&p, tree, cutoff);
    (recs, total)
}

/// True when the tree holds no symlink. A symlink is the one kind of
/// entry that is never stale, so only symlinks can keep an otherwise
/// stale tree from collapsing; skipped entries do not.
pub open spec fn symlink_free(t: FsTree) -> bool
    decreases t,
{
    match t {
        FsTree::Dir { entries, .. } => forall|i: int|
            0 <= i < entries@.len() ==> symlink_free(#[trigger] entries@[i].node),
        FsTree::Symlink => false,
        _ => true,
    }
}

/// True when every file in the tree was last accessed strictly before
/// `cutoff`.
pub open spec fn all_files_stale(t: FsTree, cutoff: u64) -> bool
    decreases t,
{
    match t {
        FsTree::File { atime, .. } => atime < cutoff,
        FsTree::Dir { entries, .. } => forall|i: int|
            0 <= i < entries@.len() ==> all_files_stale(#[trigger] entries@[i].node, cutoff),
        _ => true,
    }
}

/// True when some file in the tree was last accessed at or after `cutoff`.
pub open spec fn has_fresh_file(t: FsTree, cutoff: u64) -> bool
    decreases t,
{
    match t {
        FsTree::File { atime, .. } => atime >= cutoff,
        FsTree::Dir { entries, .. } => exists|i: int|
            0 <= i < entries@.len() && has_fresh_file(#[trigger] entries@[i].node, cutoff),
        _ => false,
    }
}

/// Sum of the sizes of all files in the tree, stale or fresh.
pub open spec fn total_size(t: FsTree) -> int
    decreases t,
{
    match t {
        FsTree::File { size, .. } => size as int,
        FsTree::Dir { entries, .. } => total_size_of_entries(entries@),
        _ => 0,
    }
}

/// Sum of `total_size` over a sequence of directory entries.
pub open spec fn total_size_of_entries(s: Seq<DirEntry>) -> int
    decreases s,
{
    if s.len() == 0 {
        0
    } else {
        total_size(s[0].node) + total_size_of_entries(s.drop_first())
    }
}

/// In a symlink-free tree whose files are all stale, every subtree is
/// wholly stale and the stale size is the full size.
pub proof fn lemma_clean_stale_tree(t: FsTree, cutoff: u64)
    requires
        symlink_free(t),
        all_files_stale(t, cutoff),
    ensures
        wholly_stale(t, cutoff),
        stale_size(t, cutoff) == total_size(t),
    decreases t,
{
    match t {
        FsTree::Dir { entries, .. } => {
            lemma_clean_stale_entries(entries@, cutoff);
        },
        _ => {},
    }
}

proof fn lemma_clean_stale_entries(s: Seq<DirEntry>, cutoff: u64)
    requires
        forall|i: int| 0 <= i < s.len() ==> symlink_free(#[trigger] s[i].node),
        forall|i: int| 0 <= i < s.len() ==> all_files_stale(#[trigger] s[i].node, cutoff),
    ensures
        forall|i: int| 0 <= i < s.len() ==> wholly_stale(#[trigger] s[i].node, cutoff),
        stale_size_of_entries(s, cutoff) == total_size_of_entries(s),
    decreases s,
{
    if s.len() > 0 {
        lemma_clean_stale_tree(s[0].node, cutoff);
        lemma_clean_stale_entries(s.drop_first(), cutoff);
        assert forall|i: int| 0 <= i < s.len() implies wholly_stale(
            #[trigger] s[i].node,
            cutoff,
        ) by {
            if i > 0 {
                assert(wholly_stale(s.drop_first()[i - 1].node, cutoff));
            }
        }
    }
}

/// A symlink-free directory tree in which every file is stale is
/// reported as exactly one summary record for the root, whose aggregate
/// size is the sum of all file sizes in the tree.
pub proof fn lemma_all_stale_tree_collapses(path: Seq<char>, t: FsTree, cutoff: u64)
    requires
        t is Dir,
        symlink_free(t),
        all_files_stale(t, cutoff),
    ensures
        wholly_stale(t, cutoff),
        classify_spec(path, t, cutoff) == seq![
            RecordModel {
                path,
                uid: t->Dir_uid,
                size: total_size(t) as u64,
                summary: true,
            },
        ],
{
    lemma_clean_stale_tree(t, cutoff);
}

/// A fresh file anywhere in a tree keeps that tree from being wholly
/// stale.
pub proof fn lemma_fresh_file_blocks_collapse(t: FsTree, cutoff: u64)
    requires
        has_fresh_file(t, cutoff),
    ensures
        !wholly_stale(t, cutoff),
    decreases t,
{
    match t {
        FsTree::Dir { entries, .. } => {
            let i = choose|i: int|
                0 <= i < entries@.len() && has_fresh_file(#[trigger] entries@[i].node, cutoff);
            lemma_fresh_file_blocks_collapse(entries@[i].node, cutoff);
        },
        _ => {},
    }
}

/// Every record reported for the subtree at `path` is rooted at `path` or
/// below: its path is at least as long.
proof fn lemma_record_paths_at_least(path: Seq<char>, t: FsTree, cutoff: u64)
    ensures
        forall|i: int| 0 <= i < classify_spec(path, t, cutoff).len()
            ==> #[trigger] classify_spec(path, t, cutoff)[i].path.len() >= path.len(),
    decreases t,
{
    match t {
        FsTree::Dir { entries, .. } => {
            if !wholly_stale(t, cutoff) {
                lemma_entry_record_paths_longer(path, entries@, cutoff);
                let ce = classify_entries(path, entries@, cutoff);
                assert forall|i: int| 0 <= i < classify_spec(path, t, cutoff).len()
                    implies #[trigger] classify_spec(path, t, cutoff)[i].path.len()
                    >= path.len() by {
                    assert(ce[i].path.len() > path.len());
                }
            }
        },
        _ => {},
    }
}

/// Every record reported for a directory's entries lies strictly below
/// the directory: its path is strictly longer.
proof fn lemma_entry_record_paths_longer(path: Seq<char>, s: Seq<DirEntry>, cutoff: u64)
    ensures
        forall|i: int| 0 <= i < classify_entries(path, s, cutoff).len()
            ==> #[trigger] classify_entries(path, s, cutoff)[i].path.len() > path.len(),
    decreases s,
{
    if s.len() > 0 {
        let cp = child_path(path, s[0].name@);
        reveal_strlit("/");
        assert(cp.len() == path.len() + 1 + s[0].name@.len());
        lemma_record_paths_at_least(cp, s[0].node, cutoff);
        lemma_entry_record_paths_longer(path, s.drop_first(), cutoff);
        let head = classify_spec(cp, s[0].node, cutoff);
        let tail = classify_entries(path, s.drop_first(), cutoff);
        assert forall|i: int| 0 <= i < classify_entries(path, s, cutoff).len()
            implies #[trigger] classify_entries(path, s, cutoff)[i].path.len() > path.len() by {
            if i < head.len() {
                assert(classify_entries(path, s, cutoff)[i] == head[i]);
                assert(head[i].path.len() >= cp.len());
            } else {
                assert(classify_entries(path, s, cutoff)[i] == tail[i - head.len()]);
                assert(tail[i - head.len()].path.len() > path.len());
            }
        }
    }
}

/// A tree containing a file accessed at or after the cutoff is never
/// collapsed into a single wholly-stale record for the root: no reported
/// record carries the root path itself.
pub proof fn lemma_fresh_root_never_collapses(path: Seq<char>, t: FsTree, cutoff: u64)
    requires
        has_fresh_file(t, cutoff),
    ensures
        !wholly_stale(t, cutoff),
        forall|i: int| 0 <= i < classify_spec(path, t, cutoff).len()
            ==> #[trigger] classify_spec(path, t, cutoff)[i].path != path,
{
    lemma_fresh_file_blocks_collapse(t, cutoff);
    match t {
        FsTree::Dir { entries, .. } => {
            lemma_entry_record_paths_longer(path, entries@, cutoff);
            let ce = classify_entries(path, entries@, cutoff);
            assert forall|i: int| 0 <= i < classify_spec(path, t, cutoff).len()
                implies #[trigger] classify_spec(path, t, cutoff)[i].path != path by {
                assert(ce[i].path.len() > path.len());
            }
        },
        _ => {},
    }
}

/// Classification is a function of the tree and cutoff alone: an
/// unchanged tree reclassified with the same cutoff yields identical
/// output.
pub proof fn lemma_classify_idempotent(
    first: Seq<RecordModel>,
    second: Seq<RecordModel>,
    path: Seq<char>,
    t: FsTree,
    cutoff: u64,
)
    requires
        first == classify_spec(path, t, cutoff),
        second == classify_spec(path, t, cutoff),
    ensures
        first == second,
{
}

} // verus!
