//! Ingest bookkeeping: the target node a request names and the directory
//! it writes under, the duplicate policy, the pairs the planner dedupes
//! against, the catalog events a finished run records, and the listing of
//! resumable runs folded from the runs directory's journals.
//!
//! A run is unfinished when it placed fewer files than it set out to
//! copy; the total is what its start record announced, or the files it
//! attempted when that is more (or when there is no start record).
use vstd::prelude::*;
use vstd::multiset::Multiset;
use crate::text::{cat, chars_of, seq_lt, str_eq, str_lt, string_of_range, string_views};
use crate::para::{dir_name, kind_dir, para_resolution, resolve_para_node, ParaKind, ParaNode};

verus! {

broadcast use vstd::seq_lib::group_to_multiset_ensures, vstd::multiset::group_multiset_axioms;

/// What to do with a file the catalog already knows: leave it where it is
/// (`Skip`), or copy it anyway (`Copy`).
#[derive(Debug, Clone, Copy, PartialEq, Eq)]
pub enum DedupeMode {
    Skip,
    Copy,
}

impl DedupeMode {
    /// Whether a known duplicate is copied anyway.
    pub fn copies_duplicates(self) -> (r: bool)
        ensures
            r == (self == DedupeMode::Copy),
    {
        match self {
            DedupeMode::Skip => false,
            DedupeMode::Copy => true,
        }
    }
}

/// One resumable run: how many files it set out to copy, how many landed,
/// and what it was copying between (empty when its journal has no start
/// record).
#[derive(Debug)]
pub struct UnfinishedRun {
    pub run_id: String,
    pub placed: u64,
    pub planned: u64,
    pub source: String,
    pub destinations: Vec<String>,
}

/// The resumable runs, newest first, and the notices gathered.
#[derive(Debug)]
pub struct UnfinishedRunsOutcome {
    pub runs: Vec<UnfinishedRun>,
    pub notices: Vec<String>,
}

/// A journal's start record: the run's id, how many files it set out to
/// copy, its source and destinations.
#[derive(Debug)]
pub struct RunStart {
    pub run: String,
    pub planned: u64,
    pub source: String,
    pub dests: Vec<String>,
}

/// A folded journal: its start record if it has one, the files a worker
/// attempted (each once), and the files checkpointed as placed.
#[derive(Debug)]
pub struct JournalFold {
    pub started: Option<RunStart>,
    pub attempted: Vec<String>,
    pub placed: Vec<String>,
}

/// One entry of the runs directory as read: unreadable (with the reason),
/// a file that is no journal, or a journal with the run id its name
/// carries, its path, and its fold or why it could not be loaded.
#[derive(Debug)]
pub enum RunsEntry {
    Unreadable { reason: String },
    Other,
    Journal { stem: String, path: String, fold: Result<JournalFold, String> },
}

/// The index of the last `.` in `s`, or `-1`.
pub open spec fn last_dot(s: Seq<char>) -> int
    decreases s.len(),
{
    if s.len() == 0 {
        -1
    } else if s.last() == '.' {
        s.len() - 1
    } else {
        last_dot(s.drop_last())
    }
}

/// The run id a `<run id>.jsonl` file name carries: the name before its
/// extension, when the extension is `jsonl` (a name whose only dot leads
/// it has no extension).
pub open spec fn run_id_of(name: Seq<char>) -> Option<Seq<char>> {
    let d = last_dot(name);
    if d > 0 && name.subrange(d + 1, name.len() as int) == "jsonl"@ {
        Some(name.subrange(0, d))
    } else {
        None
    }
}

proof fn lemma_last_dot_step(s: Seq<char>, i: int)
    requires
        0 <= i < s.len(),
    ensures
        last_dot(s.subrange(0, i + 1)) == if s[i] == '.' {
            i
        } else {
            last_dot(s.subrange(0, i))
        },
{
    assert(s.subrange(0, i + 1).drop_last() =~= s.subrange(0, i));
}

/// The run id a runs-directory file name carries, or `None` for anything
/// that is not a `.jsonl` journal.
pub fn journal_run_id(name: &str) -> (r: Option<String>)
    ensures
        match (r, run_id_of(name@)) {
            (Some(a), Some(b)) => a@ == b,
            (None, None) => true,
            _ => false,
        },
{
    let cs = chars_of(name);
    let n = cs.len();
    let mut j: usize = n;
    assert(name@.subrange(0, n as int) =~= name@);
    while j > 0 && cs[j - 1] != '.'
        invariant
            cs@ == name@,
            n == cs.len(),
            j <= n,
            last_dot(name@) == last_dot(name@.subrange(0, j as int)),
        decreases j,
    {
        proof {
            lemma_last_dot_step(name@, j - 1);
        }
        j = j - 1;
    }
    if j <= 1 {
        proof {
            if j == 1 {
                lemma_last_dot_step(name@, 0);
            } else {
                assert(name@.subrange(0, 0) =~= Seq::<char>::empty());
            }
        }
        return None;
    }
    proof {
        lemma_last_dot_step(name@, j - 1);
        reveal_strlit("jsonl");
    }
    let ext = string_of_range(&cs, j, n);
    if !str_eq(ext.as_str(), "jsonl") {
        return None;
    }
    Some(string_of_range(&cs, 0, j - 1))
}

/// How many of the first `n` attempted files were placed.
pub open spec fn placed_count(attempted: Seq<String>, placed: Seq<String>, n: nat) -> nat
    decreases n,
{
    if n == 0 {
        0
    } else {
        placed_count(attempted, placed, (n - 1) as nat) + if (exists|j: int|
            0 <= j < placed.len() && #[trigger] placed[j]@ == attempted[n - 1]@) {
            1nat
        } else {
            0nat
        }
    }
}

/// The total a journal set out to copy.
pub open spec fn planned_total(f: JournalFold) -> nat {
    let announced: nat = match f.started {
        Some(s) => s.planned as nat,
        None => 0,
    };
    if announced >= f.attempted@.len() {
        announced
    } else {
        f.attempted@.len()
    }
}

/// A run as plain values: id, placed, planned, source, destinations.
pub open spec fn run_view(u: UnfinishedRun) -> (Seq<char>, u64, u64, Seq<char>, Seq<Seq<char>>) {
    (u.run_id@, u.placed, u.planned, u.source@, string_views(u.destinations@))
}

/// The run a folded journal reports, or `None` when it placed everything
/// it set out to copy (or set out to copy nothing).
pub open spec fn unfinished_of(f: JournalFold, stem: Seq<char>) -> Option<(Seq<char>, u64, u64, Seq<char>, Seq<Seq<char>>)> {
    let placed = placed_count(f.attempted@, f.placed@, f.attempted@.len());
    if placed >= planned_total(f) {
        None
    } else {
        Some(
            match f.started {
                Some(s) => (s.run@, placed as u64, planned_total(f) as u64, s.source@, string_views(s.dests@)),
                None => (stem, placed as u64, planned_total(f) as u64, Seq::empty(), Seq::empty()),
            },
        )
    }
}

proof fn lemma_placed_count_bound(attempted: Seq<String>, placed: Seq<String>, n: nat)
    ensures
        placed_count(attempted, placed, n) <= n,
    decreases n,
{
    if n > 0 {
        lemma_placed_count_bound(attempted, placed, (n - 1) as nat);
    }
}

fn is_placed(placed: &Vec<String>, rel: &str) -> (r: bool)
    ensures
        r == exists|j: int| 0 <= j < placed.len() && #[trigger] placed@[j]@ == rel@,
{
    let mut j: usize = 0;
    while j < placed.len()
        invariant
            j <= placed.len(),
            forall|k: int| 0 <= k < j ==> placed@[k]@ != rel@,
        decreases placed.len() - j,
    {
        if str_eq(placed[j].as_str(), rel) {
            return true;
        }
        j = j + 1;
    }
    false
}

/// Reports a folded journal as unfinished, or `None` when every file it
/// set out to copy was placed. `stem` names the run when the journal has
/// no start record. Placed files count only among those attempted.
pub fn unfinished_run_at(fold: JournalFold, stem: String) -> (r: Option<UnfinishedRun>)
    ensures
        match (r, unfinished_of(fold, stem@)) {
            (Some(u), Some(v)) => run_view(u) == v,
            (None, None) => true,
            _ => false,
        },
{
    let ghost f = fold;
    let mut placed: u64 = 0;
    let mut i: usize = 0;
    while i < fold.attempted.len()
        invariant
            i <= fold.attempted.len(),
            fold == f,
            placed == placed_count(fold.attempted@, fold.placed@, i as nat),
            placed <= i,
        decreases fold.attempted.len() - i,
    {
        proof {
            lemma_placed_count_bound(fold.attempted@, fold.placed@, (i + 1) as nat);
        }
        if is_placed(&fold.placed, fold.attempted[i].as_str()) {
            placed = placed + 1;
        }
        i = i + 1;
    }
    let attempted = fold.attempted.len() as u64;
    let announced: u64 = match &fold.started {
        Some(s) => s.planned,
        None => 0,
    };
    let planned = if announced >= attempted { announced } else { attempted };
    if placed >= planned {
        return None;
    }
    let JournalFold { started, attempted: _, placed: _ } = fold;
    match started {
        Some(s) => {
            let RunStart { run, planned: _, source, dests } = s;
            Some(UnfinishedRun { run_id: run, placed, planned, source, destinations: dests })
        },
        None => {
            let u = UnfinishedRun { run_id: stem, placed, planned, source: String::new(), destinations: Vec::new() };
            assert(string_views(u.destinations@) =~= Seq::<Seq<char>>::empty());
            Some(u)
        },
    }
}


/// The runs the entries report, in directory order.
pub open spec fn entry_runs(entries: Seq<RunsEntry>) -> Seq<(Seq<char>, u64, u64, Seq<char>, Seq<Seq<char>>)>
    decreases entries.len(),
{
    if entries.len() == 0 {
        Seq::empty()
    } else {
        let rest = entry_runs(entries.drop_last());
        match entries.last() {
            RunsEntry::Journal { stem, fold: Ok(f), .. } => match unfinished_of(f, stem@) {
                Some(v) => rest.push(v),
                None => rest,
            },
            _ => rest,
        }
    }
}

/// The notices the entries earn, in directory order: an unreadable entry,
/// or a journal that could not be loaded, is skipped with a note.
pub open spec fn entry_notes(dir: Seq<char>, entries: Seq<RunsEntry>) -> Seq<Seq<char>>
    decreases entries.len(),
{
    if entries.len() == 0 {
        Seq::empty()
    } else {
        let rest = entry_notes(dir, entries.drop_last());
        match entries.last() {
            RunsEntry::Unreadable { reason } => rest.push(
                "skipping an unreadable entry in "@ + dir + ": "@ + reason@,
            ),
            RunsEntry::Journal { path, fold: Err(e), .. } => rest.push(
                "skipping unreadable run journal "@ + path@ + ": "@ + e@,
            ),
            _ => rest,
        }
    }
}

/// The ids of runs given as plain values.
pub open spec fn run_ids(runs: Seq<(Seq<char>, u64, u64, Seq<char>, Seq<Seq<char>>)>) -> Seq<Seq<char>> {
    runs.map_values(|v: (Seq<char>, u64, u64, Seq<char>, Seq<Seq<char>>)| v.0)
}

/// `order` lists each run index once, newest run id first, runs with
/// equal ids in the order they were found.
pub open spec fn newest_first(order: Seq<usize>, ids: Seq<Seq<char>>) -> bool {
    &&& order.len() == ids.len()
    &&& forall|i: int| 0 <= i < order.len() ==> (#[trigger] order[i]) < ids.len()
    &&& forall|i: int, j: int| 0 <= i < j < order.len() ==> (#[trigger] order[i]) != (#[trigger] order[j])
    &&& forall|i: int, j: int|
        0 <= i < j < order.len() ==> !seq_lt(ids[(#[trigger] order[i]) as int], ids[(#[trigger] order[j]) as int])
    &&& forall|i: int, j: int|
        0 <= i < j < order.len() && ids[(#[trigger] order[i]) as int] == ids[(#[trigger] order[j]) as int] ==> order[i]
            < order[j]
}

fn copy_run(u: &UnfinishedRun) -> (c: UnfinishedRun)
    ensures
        run_view(c) == run_view(*u),
{
    let mut dests: Vec<String> = Vec::new();
    let mut i: usize = 0;
    while i < u.destinations.len()
        invariant
            i <= u.destinations.len(),
            dests@ == u.destinations@.subrange(0, i as int),
        decreases u.destinations.len() - i,
    {
        dests.push(u.destinations[i].clone());
        i = i + 1;
        assert(dests@ =~= u.destinations@.subrange(0, i as int));
    }
    assert(u.destinations@.subrange(0, u.destinations.len() as int) =~= u.destinations@);
    UnfinishedRun {
        run_id: u.run_id.clone(),
        placed: u.placed,
        planned: u.planned,
        source: u.source.clone(),
        destinations: dests,
    }
}

/// The resumable runs in the runs directory `runs_dir`, newest first (run
/// ids order chronologically), from its entries as read. An unreadable
/// entry or journal is a notice and a skipped row, never a failed listing;
/// the notices follow those already gathered in `sink`.
pub fn ingest_unfinished(runs_dir: &str, sink: Vec<String>, entries: Vec<RunsEntry>) -> (out: UnfinishedRunsOutcome)
    ensures
        string_views(out.notices@) == string_views(sink@) + entry_notes(runs_dir@, entries@),
        ({
            let found = entry_runs(entries@);
            exists|order: Seq<usize>|
                #[trigger] newest_first(order, run_ids(found))
                    && out.runs@.map_values(|u: UnfinishedRun| run_view(u)) == order.map_values(
                    |x: usize| found[x as int],
                )
        }),
{
    let ghost all = entries@;
    let total = entries.len();
    let mut notices = sink;
    let ghost n0 = notices@;
    let mut found: Vec<UnfinishedRun> = Vec::new();
    let mut rest = entries;
    let mut k: usize = 0;
    while rest.len() > 0
        invariant
            k + rest.len() == all.len(),
            all.len() == total,
            rest@ == all.subrange(k as int, all.len() as int),
            found@.map_values(|u: UnfinishedRun| run_view(u)) == entry_runs(all.subrange(0, k as int)),
            string_views(notices@) == string_views(n0) + entry_notes(runs_dir@, all.subrange(0, k as int)),
        decreases rest.len(),
    {
        let e = rest.remove(0);
        proof {
            assert(all.subrange(0, k + 1).drop_last() =~= all.subrange(0, k as int));
            assert(all.subrange(0, k + 1).last() == e);
        }
        let ghost found0 = found@;
        let ghost notices0 = notices@;
        match e {
            RunsEntry::Unreadable { reason } => {
                let head = cat("skipping an unreadable entry in ", runs_dir);
                let head = cat(head.as_str(), ": ");
                let line = cat(head.as_str(), reason.as_str());
                notices.push(line);
                proof {
                    assert(string_views(notices@) =~= string_views(notices0).push(line@));
                }
            },
            RunsEntry::Other => {},
            RunsEntry::Journal { stem, path, fold } => {
                match fold {
                    Ok(f) => {
                        match unfinished_run_at(f, stem) {
                            Some(u) => {
                                found.push(u);
                            },
                            None => {},
                        }
                    },
                    Err(err) => {
                        let head = cat("skipping unreadable run journal ", path.as_str());
                        let head = cat(head.as_str(), ": ");
                        let line = cat(head.as_str(), err.as_str());
                        notices.push(line);
                        proof {
                            assert(string_views(notices@) =~= string_views(notices0).push(line@));
                        }
                    },
                }
            },
        }
        proof {
            assert(found@.map_values(|u: UnfinishedRun| run_view(u)) =~= entry_runs(all.subrange(0, k + 1)));
            assert(string_views(notices@) =~= string_views(n0) + entry_notes(runs_dir@, all.subrange(0, k + 1)));
        }
        k = k + 1;
    }
    assert(all.subrange(0, all.len() as int) =~= all);
    let ghost views = found@.map_values(|u: UnfinishedRun| run_view(u));
    let ghost ids = run_ids(views);
    let n = found.len();
    let mut order: Vec<usize> = Vec::new();
    let mut c: usize = 0;
    while c < n
        invariant
            c <= n,
            n == found.len(),
            ids.len() == n,
            forall|x: int| 0 <= x < n ==> #[trigger] ids[x] == found@[x].run_id@,
            order.len() == c,
            forall|i: int| 0 <= i < order.len() ==> (#[trigger] order@[i]) < c,
            forall|i: int, j: int| 0 <= i < j < order.len() ==> (#[trigger] order@[i]) != (#[trigger] order@[j]),
            forall|i: int, j: int|
                0 <= i < j < order.len() ==> !seq_lt(ids[(#[trigger] order@[i]) as int], ids[(#[trigger] order@[j]) as int]),
            forall|i: int, j: int|
                0 <= i < j < order.len() && ids[(#[trigger] order@[i]) as int] == ids[(#[trigger] order@[j]) as int]
                    ==> order@[i] < order@[j],
        decreases n - c,
    {
        let mut k: usize = 0;
        while k < order.len() && !str_lt(found[order[k]].run_id.as_str(), found[c].run_id.as_str())
            invariant
                k <= order.len(),
                c < n,
                n == found.len(),
                ids.len() == n,
                forall|x: int| 0 <= x < n ==> #[trigger] ids[x] == found@[x].run_id@,
                forall|i: int| 0 <= i < order.len() ==> (#[trigger] order@[i]) < c,
                forall|i: int| 0 <= i < k ==> !seq_lt(ids[(#[trigger] order@[i]) as int], ids[c as int]),
            decreases order.len() - k,
        {
            k = k + 1;
        }
        let ghost before = order@;
        order.insert(k, c);
        proof {
            assert(order@ == before.insert(k as int, c));
            let x = ids[c as int];
            assert forall|i: int| 0 <= i < order.len() implies (#[trigger] order@[i]) < c + 1 by {
                if i < k {
                    assert(order@[i] == before[i]);
                } else if i > k {
                    assert(order@[i] == before[i - 1]);
                }
            }
            assert forall|i: int, j: int| 0 <= i < j < order.len() implies (#[trigger] order@[i]) != (#[trigger] order@[j]) by {
                if i < k && j == k {
                    assert(order@[i] == before[i]);
                } else if i < k && j > k {
                    assert(order@[i] == before[i]);
                    assert(order@[j] == before[j - 1]);
                } else if i == k && j > k {
                    assert(order@[j] == before[j - 1]);
                } else if i > k {
                    assert(order@[i] == before[i - 1]);
                    assert(order@[j] == before[j - 1]);
                }
            }
            assert forall|i: int, j: int| 0 <= i < j < order.len() implies !seq_lt(
                ids[(#[trigger] order@[i]) as int],
                ids[(#[trigger] order@[j]) as int],
            ) && (ids[order@[i] as int] == ids[order@[j] as int] ==> order@[i] < order@[j]) by {
                if i < k && j == k {
                    assert(order@[i] == before[i]);
                } else if i < k && j > k {
                    assert(order@[i] == before[i]);
                    assert(order@[j] == before[j - 1]);
                } else if i == k && j > k {
                    assert(order@[j] == before[j - 1]);
                    let y = ids[before[k as int] as int];
                    assert(seq_lt(y, x));
                    let z = ids[before[j - 1] as int];
                    if j - 1 > k {
                        assert(!seq_lt(y, z));
                    }
                    if seq_lt(x, z) {
                        if j - 1 == k {
                            crate::text::lemma_seq_lt_asymmetric(y, x);
                        } else {
                            crate::text::lemma_seq_lt_transitive(y, x, z);
                        }
                    }
                    if x == z {
                        if j - 1 == k {
                            crate::text::lemma_seq_lt_irreflexive(x);
                        }
                    }
                } else if i > k {
                    assert(order@[i] == before[i - 1]);
                    assert(order@[j] == before[j - 1]);
                }
            }
        }
        c = c + 1;
    }
    let mut runs: Vec<UnfinishedRun> = Vec::new();
    let mut p: usize = 0;
    while p < n
        invariant
            p <= n,
            n == found.len(),
            order.len() == n,
            views == found@.map_values(|u: UnfinishedRun| run_view(u)),
            forall|i: int| 0 <= i < order.len() ==> (#[trigger] order@[i]) < n,
            runs@.map_values(|u: UnfinishedRun| run_view(u)) == order@.subrange(0, p as int).map_values(
                |x: usize| views[x as int],
            ),
        decreases n - p,
    {
        let u = copy_run(&found[order[p]]);
        assert(run_view(u) == views[order@[p as int] as int]);
        let ghost runs0 = runs@;
        runs.push(u);
        proof {
            assert(runs@.map_values(|u: UnfinishedRun| run_view(u)) =~= runs0.map_values(|u: UnfinishedRun| run_view(u)).push(run_view(u)));
            assert(order@.subrange(0, p + 1).map_values(|x: usize| views[x as int]) =~= order@.subrange(0, p as int).map_values(|x: usize| views[x as int]).push(views[order@[p as int] as int]));
        }
        p = p + 1;
        proof {
            assert(runs@.map_values(|u: UnfinishedRun| run_view(u)) =~= order@.subrange(0, p as int).map_values(
                |x: usize| views[x as int],
            ));
        }
    }
    proof {
        assert(order@.subrange(0, n as int) =~= order@);
        assert(newest_first(order@, ids));
    }
    UnfinishedRunsOutcome { runs, notices }
}

/// A file a run placed: its content hashes (bare hex) and size.
#[derive(Debug)]
pub struct PlacedFile {
    pub xxh3: String,
    pub xxh64: String,
    pub size: u64,
}

/// Where a placed file landed on one destination volume: its path relative
/// to the volume's mount root, and its modification time (ms, 0 unknown).
#[derive(Debug)]
pub struct DestPlacement {
    pub path: String,
    pub mtime_ms: u64,
}

/// A catalog event an ingest run records.
#[derive(Debug)]
pub enum IngestOp {
    VolumeSeen { volume: String, label: String },
    AssetSeen { asset: String, volume: String, path: String, size: u64, mtime_ms: u64 },
    /// An `xxh64` verification, recorded as verified at `hashdate_ms`.
    Verified { asset: String, volume: String, path: String, xxh64: String, hashdate_ms: u64 },
    AssetParaSet { asset: String, node: String },
    /// The ASC MHL generation a run wrote on a destination volume.
    ManifestRecorded { volume: String, mhl_path: String, generation: u64, roothash: String },
}

/// An event as a value.
pub enum OpView {
    VolumeSeen(Seq<char>, Seq<char>),
    AssetSeen(Seq<char>, Seq<char>, Seq<char>, u64, u64),
    Verified(Seq<char>, Seq<char>, Seq<char>, Seq<char>, u64),
    AssetParaSet(Seq<char>, Seq<char>),
    ManifestRecorded(Seq<char>, Seq<char>, u64, Seq<char>),
}

impl View for IngestOp {
    type V = OpView;

    open spec fn view(&self) -> OpView {
        match self {
            IngestOp::VolumeSeen { volume, label } => OpView::VolumeSeen(volume@, label@),
            IngestOp::AssetSeen { asset, volume, path, size, mtime_ms } => OpView::AssetSeen(
                asset@,
                volume@,
                path@,
                *size,
                *mtime_ms,
            ),
            IngestOp::Verified { asset, volume, path, xxh64, hashdate_ms } => OpView::Verified(
                asset@,
                volume@,
                path@,
                xxh64@,
                *hashdate_ms,
            ),
            IngestOp::AssetParaSet { asset, node } => OpView::AssetParaSet(asset@, node@),
            IngestOp::ManifestRecorded { volume, mhl_path, generation, roothash } => OpView::ManifestRecorded(
                volume@,
                mhl_path@,
                *generation,
                roothash@,
            ),
        }
    }
}

/// The events as values.
pub open spec fn op_views(ops: Seq<IngestOp>) -> Seq<OpView> {
    ops.map_values(|o: IngestOp| o@)
}

/// The catalog id of a placed file's asset.
pub open spec fn placed_asset(p: PlacedFile) -> Seq<char> {
    "xxh3:"@ + p.xxh3@
}

/// The sighting and the verification of placed file `p` at each of the
/// first `m` destination volumes, in volume order.
pub open spec fn dest_ops(p: PlacedFile, at: Seq<DestPlacement>, dests: Seq<String>, hashdate_ms: u64, m: nat) -> Seq<OpView>
    decreases m,
{
    if m == 0 {
        Seq::empty()
    } else {
        let k = m - 1;
        dest_ops(p, at, dests, hashdate_ms, (m - 1) as nat) + seq![
            OpView::AssetSeen(placed_asset(p), dests[k]@, at[k].path@, p.size, at[k].mtime_ms),
            OpView::Verified(placed_asset(p), dests[k]@, at[k].path@, p.xxh64@, hashdate_ms),
        ]
    }
}

/// Whether one of the first `n` placed files is of asset `a`.
pub open spec fn placed_before(placed: Seq<PlacedFile>, n: int, a: Seq<char>) -> bool {
    exists|j: int| 0 <= j < n && #[trigger] placed_asset(placed[j]) == a
}

/// The events for the first `n` placed files: each file's sightings and
/// verifications at every destination, then, the first time its asset
/// comes up, the asset's assignment to `node`.
pub open spec fn placement_ops(
    placed: Seq<PlacedFile>,
    at: Seq<Vec<DestPlacement>>,
    dests: Seq<String>,
    node: Seq<char>,
    hashdate_ms: u64,
    n: nat,
) -> Seq<OpView>
    decreases n,
{
    if n == 0 {
        Seq::empty()
    } else {
        let i = n - 1;
        let a = placed_asset(placed[i]);
        let para: Seq<OpView> = if placed_before(placed, i, a) { Seq::empty() } else { seq![OpView::AssetParaSet(a, node)] };
        placement_ops(placed, at, dests, node, hashdate_ms, (n - 1) as nat) + dest_ops(
            placed[i],
            at[i]@,
            dests,
            hashdate_ms,
            dests.len(),
        ) + para
    }
}

/// The events that record an ingest run's placed files: for every placed
/// file (in order) its sighting and `xxh64` verification at every
/// destination volume (`at[i][k]` is where file `i` sits on volume
/// `dests[k]`), plus one assignment to PARA node `node` per distinct asset,
/// at its first file, however many files share its content.
pub fn asset_and_para_ops(
    placed: &Vec<PlacedFile>,
    at: &Vec<Vec<DestPlacement>>,
    dests: &Vec<String>,
    node: &str,
    hashdate_ms: u64,
) -> (ops: Vec<IngestOp>)
    requires
        at.len() == placed.len(),
        forall|i: int| 0 <= i < at.len() ==> (#[trigger] at@[i]).len() == dests.len(),
    ensures
        op_views(ops@) == placement_ops(placed@, at@, dests@, node@, hashdate_ms, placed.len() as nat),
{
    let mut ops: Vec<IngestOp> = Vec::new();
    let mut seen: Vec<String> = Vec::new();
    let mut i: usize = 0;
    while i < placed.len()
        invariant
            i <= placed.len(),
            at.len() == placed.len(),
            forall|j: int| 0 <= j < at.len() ==> (#[trigger] at@[j]).len() == dests.len(),
            seen.len() == i,
            forall|j: int| 0 <= j < i ==> (#[trigger] seen@[j])@ == placed_asset(placed@[j]),
            op_views(ops@) == placement_ops(placed@, at@, dests@, node@, hashdate_ms, i as nat),
        decreases placed.len() - i,
    {
        let p = &placed[i];
        let asset = cat("xxh3:", p.xxh3.as_str());
        let ghost base = op_views(ops@);
        let mut k: usize = 0;
        while k < dests.len()
            invariant
                k <= dests.len(),
                i < placed.len(),
                at.len() == placed.len(),
                at@[i as int].len() == dests.len(),
                *p == placed@[i as int],
                asset@ == placed_asset(placed@[i as int]),
                op_views(ops@) == base + dest_ops(placed@[i as int], at@[i as int]@, dests@, hashdate_ms, k as nat),
            decreases dests.len() - k,
        {
            let ghost before = op_views(ops@);
            let spot = &at[i][k];
            ops.push(IngestOp::AssetSeen {
                asset: asset.clone(),
                volume: dests[k].clone(),
                path: spot.path.clone(),
                size: p.size,
                mtime_ms: spot.mtime_ms,
            });
            ops.push(IngestOp::Verified {
                asset: asset.clone(),
                volume: dests[k].clone(),
                path: spot.path.clone(),
                xxh64: p.xxh64.clone(),
                hashdate_ms,
            });
            proof {
                let d = dest_ops(placed@[i as int], at@[i as int]@, dests@, hashdate_ms, (k + 1) as nat);
                assert(op_views(ops@) =~= before + seq![
                    OpView::AssetSeen(asset@, dests@[k as int]@, spot.path@, p.size, spot.mtime_ms),
                    OpView::Verified(asset@, dests@[k as int]@, spot.path@, p.xxh64@, hashdate_ms),
                ]);
                assert(base + d =~= before + seq![
                    OpView::AssetSeen(asset@, dests@[k as int]@, spot.path@, p.size, spot.mtime_ms),
                    OpView::Verified(asset@, dests@[k as int]@, spot.path@, p.xxh64@, hashdate_ms),
                ]);
            }
            k = k + 1;
        }
        let ghost mid = op_views(ops@);
        let again = crate::search::listed_in(&seen, asset.as_str());
        proof {
            if again {
                let j = choose|j: int| 0 <= j < seen.len() && #[trigger] seen@[j]@ == asset@;
                assert(placed_asset(placed@[j]) == placed_asset(placed@[i as int]));
            }
            if placed_before(placed@, i as int, placed_asset(placed@[i as int])) {
                let j = choose|j: int| 0 <= j < i && #[trigger] placed_asset(placed@[j]) == placed_asset(placed@[i as int]);
                assert(seen@[j]@ == asset@);
            }
        }
        if !again {
            ops.push(IngestOp::AssetParaSet { asset: asset.clone(), node: node.to_owned() });
            assert(op_views(ops@) =~= mid.push(OpView::AssetParaSet(asset@, node@)));
        }
        let ghost prev_seen = seen@;
        seen.push(asset);
        proof {
            assert forall|j: int| 0 <= j < i + 1 implies (#[trigger] seen@[j])@ == placed_asset(placed@[j]) by {
                if j < i {
                    assert(seen@[j] == prev_seen[j]);
                }
            }
            let n = (i + 1) as nat;
            assert(placement_ops(placed@, at@, dests@, node@, hashdate_ms, n) =~= op_views(ops@));
        }
        i = i + 1;
    }
    ops
}

/// The volume sightings an ingest run records: its source volume, then
/// each destination volume (id, label), in order.
pub fn volume_seen_ops(source_id: &str, source_label: &str, dests: &Vec<(String, String)>) -> (ops: Vec<IngestOp>)
    ensures
        ops.len() == dests.len() + 1,
        op_views(ops@)[0] == OpView::VolumeSeen(source_id@, source_label@),
        forall|k: int| 0 <= k < dests.len() ==> #[trigger] op_views(ops@)[k + 1] == OpView::VolumeSeen(
            dests@[k].0@,
            dests@[k].1@,
        ),
{
    let mut ops: Vec<IngestOp> = Vec::new();
    ops.push(IngestOp::VolumeSeen { volume: source_id.to_owned(), label: source_label.to_owned() });
    let mut k: usize = 0;
    while k < dests.len()
        invariant
            k <= dests.len(),
            ops.len() == k + 1,
            ops@[0]@ == OpView::VolumeSeen(source_id@, source_label@),
            forall|j: int| 0 <= j < k ==> (#[trigger] ops@[j + 1])@ == OpView::VolumeSeen(dests@[j].0@, dests@[j].1@),
        decreases dests.len() - k,
    {
        let ghost before = ops@;
        ops.push(IngestOp::VolumeSeen { volume: dests[k].0.clone(), label: dests[k].1.clone() });
        proof {
            assert forall|j: int| 0 <= j < k + 1 implies (#[trigger] ops@[j + 1])@ == OpView::VolumeSeen(
                dests@[j].0@,
                dests@[j].1@,
            ) by {
                if j < k {
                    assert(ops@[j + 1] == before[j + 1]);
                }
            }
            assert(ops@[0] == before[0]);
        }
        k = k + 1;
    }
    proof {
        assert forall|j: int| 0 <= j < dests.len() implies #[trigger] op_views(ops@)[j + 1] == OpView::VolumeSeen(
            dests@[j].0@,
            dests@[j].1@,
        ) by {
            assert(ops@[j + 1]@ == OpView::VolumeSeen(dests@[j].0@, dests@[j].1@));
        }
    }
    ops
}

proof fn lemma_dest_ops_assign_nothing(p: PlacedFile, at: Seq<DestPlacement>, dests: Seq<String>, hashdate_ms: u64, m: nat)
    ensures
        forall|k: int| 0 <= k < dest_ops(p, at, dests, hashdate_ms, m).len() ==> !(#[trigger] dest_ops(p, at, dests, hashdate_ms, m)[k] is AssetParaSet),
        dest_ops(p, at, dests, hashdate_ms, m).len() == 2 * m,
    decreases m,
{
    if m > 0 {
        lemma_dest_ops_assign_nothing(p, at, dests, hashdate_ms, (m - 1) as nat);
        let prev = dest_ops(p, at, dests, hashdate_ms, (m - 1) as nat);
        let d = dest_ops(p, at, dests, hashdate_ms, m);
        assert forall|k: int| 0 <= k < d.len() implies !(#[trigger] d[k] is AssetParaSet) by {
            if k < prev.len() {
                assert(d[k] == prev[k]);
            }
        }
    }
}

/// Each asset a run's events assign to the node belongs to one of the
/// first `n` placed files, and no two assignments are of the same asset.
proof fn lemma_assignments(
    placed: Seq<PlacedFile>,
    at: Seq<Vec<DestPlacement>>,
    dests: Seq<String>,
    node: Seq<char>,
    hashdate_ms: u64,
    n: nat,
)
    requires
        n <= placed.len(),
    ensures
        forall|p: int| 0 <= p < placement_ops(placed, at, dests, node, hashdate_ms, n).len()
            && (#[trigger] placement_ops(placed, at, dests, node, hashdate_ms, n)[p]) is AssetParaSet
            ==> placed_before(placed, n as int, placement_ops(placed, at, dests, node, hashdate_ms, n)[p]->AssetParaSet_0),
        forall|p: int, q: int| 0 <= p < q < placement_ops(placed, at, dests, node, hashdate_ms, n).len()
            && (#[trigger] placement_ops(placed, at, dests, node, hashdate_ms, n)[p]) is AssetParaSet
            && (#[trigger] placement_ops(placed, at, dests, node, hashdate_ms, n)[q]) is AssetParaSet
            ==> placement_ops(placed, at, dests, node, hashdate_ms, n)[p]->AssetParaSet_0
                != placement_ops(placed, at, dests, node, hashdate_ms, n)[q]->AssetParaSet_0,
        forall|j: int| 0 <= j < n ==> exists|p: int| 0 <= p < placement_ops(placed, at, dests, node, hashdate_ms, n).len()
            && #[trigger] placement_ops(placed, at, dests, node, hashdate_ms, n)[p] == OpView::AssetParaSet(
                placed_asset(#[trigger] placed[j]),
                node,
            ),
    decreases n,
{
    if n > 0 {
        let i = n - 1;
        lemma_assignments(placed, at, dests, node, hashdate_ms, (n - 1) as nat);
        lemma_dest_ops_assign_nothing(placed[i], at[i]@, dests, hashdate_ms, dests.len());
        let prev = placement_ops(placed, at, dests, node, hashdate_ms, (n - 1) as nat);
        let block = dest_ops(placed[i], at[i]@, dests, hashdate_ms, dests.len());
        let a = placed_asset(placed[i]);
        let fresh = !placed_before(placed, i, a);
        let all = placement_ops(placed, at, dests, node, hashdate_ms, n);
        let cut: int = (prev.len() + block.len()) as int;
        assert forall|p: int| 0 <= p < all.len() && (#[trigger] all[p]) is AssetParaSet implies placed_before(
            placed,
            n as int,
            all[p]->AssetParaSet_0,
        ) by {
            if p < prev.len() {
                assert(all[p] == prev[p]);
                let j = choose|j: int| 0 <= j < n - 1 && #[trigger] placed_asset(placed[j]) == prev[p]->AssetParaSet_0;
                assert(placed_asset(placed[j]) == all[p]->AssetParaSet_0);
            } else if p < cut {
                assert(all[p] == block[p - prev.len()]);
            } else {
                assert(all[p] == OpView::AssetParaSet(a, node));
                assert(placed_asset(placed[i as int]) == a);
            }
        }
        assert forall|p: int, q: int| 0 <= p < q < all.len() && (#[trigger] all[p]) is AssetParaSet && (#[trigger] all[q]) is AssetParaSet
            implies all[p]->AssetParaSet_0 != all[q]->AssetParaSet_0 by {
            if q < prev.len() {
                assert(all[p] == prev[p]);
                assert(all[q] == prev[q]);
            } else if q < cut {
                assert(all[q] == block[q - prev.len()]);
            } else {
                assert(all[q] == OpView::AssetParaSet(a, node));
                if p < prev.len() {
                    assert(all[p] == prev[p]);
                    assert(prev[p] is AssetParaSet);
                    assert(placed_before(placed, (n - 1) as int, prev[p]->AssetParaSet_0));
                } else {
                    assert(all[p] == block[p - prev.len()]);
                }
            }
        }
        assert forall|j: int| 0 <= j < n implies exists|p: int| 0 <= p < all.len()
            && #[trigger] all[p] == OpView::AssetParaSet(placed_asset(#[trigger] placed[j]), node) by {
            if j < n - 1 {
                let p = choose|p: int| 0 <= p < prev.len() && #[trigger] prev[p] == OpView::AssetParaSet(placed_asset(placed[j]), node);
                assert(all[p] == prev[p]);
            } else if fresh {
                assert(all[cut] == OpView::AssetParaSet(a, node));
            } else {
                let k = choose|k: int| 0 <= k < i && #[trigger] placed_asset(placed[k]) == a;
                let p = choose|p: int| 0 <= p < prev.len() && #[trigger] prev[p] == OpView::AssetParaSet(placed_asset(placed[k]), node);
                assert(all[p] == prev[p]);
            }
        }
    }
}

/// An ingest run assigns each asset it placed to the target node exactly
/// once: every placed file's asset has an assignment among the run's
/// events, and no two assignments are of the same asset.
pub proof fn each_placed_asset_assigned_once(
    placed: Seq<PlacedFile>,
    at: Seq<Vec<DestPlacement>>,
    dests: Seq<String>,
    node: Seq<char>,
    hashdate_ms: u64,
)
    ensures
        ({
            let ops = placement_ops(placed, at, dests, node, hashdate_ms, placed.len());
            &&& forall|j: int| 0 <= j < placed.len() ==> exists|p: int| 0 <= p < ops.len()
                && #[trigger] ops[p] == OpView::AssetParaSet(placed_asset(#[trigger] placed[j]), node)
            &&& forall|p: int, q: int| 0 <= p < q < ops.len() && (#[trigger] ops[p]) is AssetParaSet
                && (#[trigger] ops[q]) is AssetParaSet ==> ops[p]->AssetParaSet_0 != ops[q]->AssetParaSet_0
        }),
{
    lemma_assignments(placed, at, dests, node, hashdate_ms, placed.len());
}

/// A generation written at one destination root: the root, the written
/// MHL file's name, its generation number and its root hash.
#[derive(Debug)]
pub struct WrittenGeneration {
    pub root: String,
    pub file_name: String,
    pub generation: u64,
    pub roothash: String,
}

/// The first of the first `n` generations written at `root`.
pub open spec fn generation_at(gens: Seq<WrittenGeneration>, root: Seq<char>, n: nat) -> Option<int>
    decreases n,
{
    if n == 0 {
        None
    } else {
        match generation_at(gens, root, (n - 1) as nat) {
            Some(j) => Some(j),
            None => if gens[n - 1].root@ == root { Some(n - 1) } else { None },
        }
    }
}

/// The manifest events for the first `n` destinations (root, volume id):
/// one per destination a generation was written at, naming the MHL file
/// under `ascmhl/`.
pub open spec fn manifest_ops_of(dests: Seq<(String, String)>, gens: Seq<WrittenGeneration>, n: nat) -> Seq<OpView>
    decreases n,
{
    if n == 0 {
        Seq::empty()
    } else {
        let d = dests[n - 1];
        let rest = manifest_ops_of(dests, gens, (n - 1) as nat);
        match generation_at(gens, d.0@, gens.len()) {
            Some(j) => rest.push(
                OpView::ManifestRecorded(d.1@, "ascmhl/"@ + gens[j].file_name@, gens[j].generation, gens[j].roothash@),
            ),
            None => rest,
        }
    }
}

fn find_generation(gens: &Vec<WrittenGeneration>, root: &str) -> (r: Option<usize>)
    ensures
        match r {
            Some(j) => j < gens.len() && generation_at(gens@, root@, gens.len() as nat) == Some(j as int),
            None => generation_at(gens@, root@, gens.len() as nat) is None,
        },
{
    let mut j: usize = 0;
    while j < gens.len()
        invariant
            j <= gens.len(),
            generation_at(gens@, root@, j as nat) is None,
        decreases gens.len() - j,
    {
        if str_eq(gens[j].root.as_str(), root) {
            proof {
                lemma_generation_at_sticks(gens@, root@, (j + 1) as nat, gens.len() as nat);
            }
            return Some(j);
        }
        j = j + 1;
    }
    None
}

proof fn lemma_generation_at_sticks(gens: Seq<WrittenGeneration>, root: Seq<char>, k: nat, n: nat)
    requires
        k <= n,
        generation_at(gens, root, k) is Some,
    ensures
        generation_at(gens, root, n) == generation_at(gens, root, k),
    decreases n - k,
{
    if k < n {
        lemma_generation_at_sticks(gens, root, k, (n - 1) as nat);
    }
}

/// The manifest events of a run: for each destination (root, volume id),
/// in order, the first generation written at its root, as an `ascmhl/`
/// path; a destination with no generation records none.
pub fn manifest_ops(dests: &Vec<(String, String)>, gens: &Vec<WrittenGeneration>) -> (ops: Vec<IngestOp>)
    ensures
        op_views(ops@) == manifest_ops_of(dests@, gens@, dests.len() as nat),
{
    let mut ops: Vec<IngestOp> = Vec::new();
    let mut k: usize = 0;
    while k < dests.len()
        invariant
            k <= dests.len(),
            op_views(ops@) == manifest_ops_of(dests@, gens@, k as nat),
        decreases dests.len() - k,
    {
        let ghost before = op_views(ops@);
        match find_generation(gens, dests[k].0.as_str()) {
            Some(j) => {
                let g = &gens[j];
                ops.push(IngestOp::ManifestRecorded {
                    volume: dests[k].1.clone(),
                    mhl_path: cat("ascmhl/", g.file_name.as_str()),
                    generation: g.generation,
                    roothash: g.roothash.clone(),
                });
                assert(op_views(ops@) =~= before.push(
                    OpView::ManifestRecorded(dests@[k as int].1@, "ascmhl/"@ + gens@[j as int].file_name@, g.generation, g.roothash@),
                ));
            },
            None => {},
        }
        k = k + 1;
    }
    ops
}

/// The (content hash, size) pairs the ingest planner dedupes against, for
/// the first `n` catalog assets (id, sizes of its recorded instances): one
/// per instance of every asset whose id is `xxh3:<hex>`, with the prefix
/// stripped; an asset with any other id contributes none.
pub open spec fn known_pairs(assets: Seq<(String, Vec<u64>)>, n: nat) -> Seq<(Seq<char>, u64)>
    decreases n,
{
    if n == 0 {
        Seq::empty()
    } else {
        let (id, sizes) = assets[n - 1];
        let rest = known_pairs(assets, (n - 1) as nat);
        if crate::text::is_prefix("xxh3:"@, id@) {
            rest + sizes@.map_values(|size: u64| (id@.skip(5), size))
        } else {
            rest
        }
    }
}

/// The planner's known-asset pairs from every catalog asset (id, sizes of
/// its recorded instances).
pub fn known_asset_pairs(assets: &Vec<(String, Vec<u64>)>) -> (pairs: Vec<(String, u64)>)
    ensures
        pairs@.map_values(|p: (String, u64)| (p.0@, p.1)) == known_pairs(assets@, assets.len() as nat),
{
    let mut pairs: Vec<(String, u64)> = Vec::new();
    let mut i: usize = 0;
    while i < assets.len()
        invariant
            i <= assets.len(),
            pairs@.map_values(|p: (String, u64)| (p.0@, p.1)) == known_pairs(assets@, i as nat),
        decreases assets.len() - i,
    {
        let id = &assets[i].0;
        let sizes = &assets[i].1;
        if crate::text::starts_with(id.as_str(), "xxh3:") {
            let chars = chars_of(id.as_str());
            proof {
                reveal_strlit("xxh3:");
            }
            let hex = string_of_range(&chars, 5, chars.len());
            assert(hex@ == id@.skip(5));
            let ghost base = pairs@.map_values(|p: (String, u64)| (p.0@, p.1));
            let mut k: usize = 0;
            while k < sizes.len()
                invariant
                    k <= sizes.len(),
                    hex@ == id@.skip(5),
                    pairs@.map_values(|p: (String, u64)| (p.0@, p.1)) == base + sizes@.take(k as int).map_values(
                        |size: u64| (id@.skip(5), size),
                    ),
                decreases sizes.len() - k,
            {
                let ghost before = pairs@.map_values(|p: (String, u64)| (p.0@, p.1));
                pairs.push((hex.clone(), sizes[k]));
                proof {
                    assert(sizes@.take(k + 1).map_values(|size: u64| (id@.skip(5), size)) =~= sizes@.take(
                        k as int,
                    ).map_values(|size: u64| (id@.skip(5), size)).push((id@.skip(5), sizes@[k as int])));
                    assert(pairs@.map_values(|p: (String, u64)| (p.0@, p.1)) =~= before.push((id@.skip(5), sizes@[k as int])));
                }
                k = k + 1;
            }
            assert(sizes@.take(sizes.len() as int) =~= sizes@);
        }
        i = i + 1;
    }
    pairs
}

/// The first of the first `n` nodes with id `id`.
pub open spec fn node_index(nodes: Seq<ParaNode>, id: Seq<char>, n: nat) -> Option<int>
    decreases n,
{
    if n == 0 {
        None
    } else {
        match node_index(nodes, id, (n - 1) as nat) {
            Some(j) => Some(j),
            None => if nodes[n - 1].id@ == id { Some(n - 1) } else { None },
        }
    }
}

pub open spec fn archived_target_message(id: Seq<char>) -> Seq<char> {
    "PARA node "@ + id + " is archived — ingest targets must be active; see `maj para list`"@
}

pub open spec fn no_kind_message(id: Seq<char>) -> Seq<char> {
    "PARA node "@ + id + " has no kind recorded"@
}

pub open spec fn no_name_message(id: Seq<char>) -> Seq<char> {
    "PARA node "@ + id + " has no name recorded"@
}

/// Where a reference to an ingest target leads: the node's id, kind and
/// name, or why it cannot take new content.
pub open spec fn ingest_target(nodes: Seq<ParaNode>, reference: Seq<char>) -> Result<(Seq<char>, ParaKind, Seq<char>), Seq<char>> {
    match para_resolution(nodes, reference) {
        Err(e) => Err(e),
        Ok(id) => match node_index(nodes, id, nodes.len()) {
            None => Err("resolved node vanished from the projection"@),
            Some(j) => {
                let node = nodes[j];
                if node.archived {
                    Err(archived_target_message(id))
                } else {
                    match (node.kind, node.name) {
                        (None, _) => Err(no_kind_message(id)),
                        (Some(_), None) => Err(no_name_message(id)),
                        (Some(k), Some(name)) => Ok((id, k, name@)),
                    }
                }
            },
        },
    }
}

fn node_at(nodes: &Vec<ParaNode>, id: &str) -> (r: Option<usize>)
    ensures
        match r {
            Some(j) => j < nodes.len() && node_index(nodes@, id@, nodes.len() as nat) == Some(j as int),
            None => node_index(nodes@, id@, nodes.len() as nat) is None,
        },
{
    let mut j: usize = 0;
    while j < nodes.len()
        invariant
            j <= nodes.len(),
            node_index(nodes@, id@, j as nat) is None,
        decreases nodes.len() - j,
    {
        if str_eq(nodes[j].id.as_str(), id) {
            proof {
                lemma_node_index_sticks(nodes@, id@, (j + 1) as nat, nodes.len() as nat);
            }
            return Some(j);
        }
        j = j + 1;
    }
    None
}

proof fn lemma_node_index_sticks(nodes: Seq<ParaNode>, id: Seq<char>, k: nat, n: nat)
    requires
        k <= n,
        node_index(nodes, id, k) is Some,
    ensures
        node_index(nodes, id, n) == node_index(nodes, id, k),
    decreases n - k,
{
    if k < n {
        lemma_node_index_sticks(nodes, id, k, (n - 1) as nat);
    }
}

fn node_message(head: &str, id: &str, tail: &str) -> (m: String)
    ensures
        m@ == head@ + id@ + tail@,
{
    let mut m = cat(head, id);
    m.append(tail);
    m
}

/// Resolves an ingest target (`<kind>/<name>` or a node id) among the
/// catalog's PARA nodes to its id, kind and name. Unlike other references,
/// a node reached by id must still be active: new content copied into an
/// archived node would bring it back as a live destination.
pub fn resolve_ingest_node(nodes: &Vec<ParaNode>, para: &str) -> (r: Result<(String, ParaKind, String), String>)
    ensures
        match (r, ingest_target(nodes@, para@)) {
            (Ok((id, k, name)), Ok((id2, k2, name2))) => id@ == id2 && k == k2 && name@ == name2,
            (Err(e), Err(e2)) => e@ == e2,
            _ => false,
        },
{
    let id = match resolve_para_node(nodes, para) {
        Ok(id) => id,
        Err(e) => return Err(e),
    };
    let j = match node_at(nodes, id.as_str()) {
        Some(j) => j,
        None => return Err("resolved node vanished from the projection".to_owned()),
    };
    let node = &nodes[j];
    if node.archived {
        return Err(node_message("PARA node ", id.as_str(), " is archived — ingest targets must be active; see `maj para list`"));
    }
    match (&node.kind, &node.name) {
        (None, _) => Err(node_message("PARA node ", id.as_str(), " has no kind recorded")),
        (Some(_), None) => Err(node_message("PARA node ", id.as_str(), " has no name recorded")),
        (Some(k), Some(name)) => Ok((id, *k, name.clone())),
    }
}

/// The destination-relative directory an ingest into a node of `kind`
/// named `name` writes to: `<KindDir>/<name>/<rendered layout>`.
pub fn ingest_subdir(kind: ParaKind, name: &str, rendered: &str) -> (out: String)
    ensures
        out@ == kind_dir(kind) + "/"@ + name@ + "/"@ + rendered@,
{
    let mut out = cat(dir_name(kind), "/");
    out.append(name);
    out.append("/");
    out.append(rendered);
    out
}

/// `--resume <id>` is honored only for a run whose journal already exists
/// (`journal_exists`): a typo'd id is refused rather than started afresh.
pub fn check_resume(run_id: &str, journal_exists: bool) -> (r: Result<(), String>)
    ensures
        journal_exists <==> r is Ok,
        r matches Err(m) ==> m@ == "no journal for run '"@ + run_id@
            + "' — check the id printed at the start of the original run"@,
{
    if journal_exists {
        return Ok(());
    }
    let head = cat("no journal for run '", run_id);
    Err(cat(head.as_str(), "' — check the id printed at the start of the original run"))
}

/// The one line a run reports when it starts, naming the id it can be
/// resumed with.
pub fn resume_notice(run_id: &str) -> (m: String)
    ensures
        m@ == "run "@ + run_id@ + " — resume with: --resume "@ + run_id@,
{
    let mut m = cat("run ", run_id);
    m.append(" — resume with: --resume ");
    m.append(run_id);
    m
}

} // verus!
