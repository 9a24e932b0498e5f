//! Sync locations and the per-location bookkeeping of `maj sync push`,
//! `pull`, `status` and `location add|rm`: which locations a command
//! targets, what each location's transfer reported, how a pull's tally is
//! summed, and when a run as a whole counts as failed. The transfers
//! themselves, and the probes of a location's mount, are the host's to run;
//! what they report comes back here as plain values.
use vstd::prelude::*;
use crate::error::ServiceError;
use crate::text::{
    cat, insert_key, join_path, key_set, lemma_sorted_distinct, path_join, trim,
    trimmed, join_strings, joined, str_eq, strictly_sorted, string_views,
};

verus! {

/// `toml`'s table type, carried through opaquely: the fields a newer `maj`
/// wrote that this build does not know about.
#[verifier::external_type_specification]
#[verifier::external_body]
#[verifier::reject_recursive_types(K)]
#[verifier::reject_recursive_types(V)]
pub struct ExTomlMap<K, V>(toml::map::Map<K, V>);

/// A TOML value, carried opaquely inside a table.
#[verifier::external_type_specification]
#[verifier::external_body]
pub struct ExTomlValue(toml::Value);

/// The keys a TOML table holds.
pub uninterp spec fn toml_table_keys(table: toml::map::Map<String, toml::Value>) -> Set<Seq<char>>;

/// `toml::map::Map::new`: a table with no keys.
#[verifier::external_body]
fn empty_table() -> (t: toml::map::Map<String, toml::Value>)
    ensures
        toml_table_keys(t) == Set::<Seq<char>>::empty(),
{
    toml::map::Map::new()
}

/// One configured sync location.
#[derive(Debug)]
pub struct Location {
    pub name: String,
    pub path: String,
    /// Unknown fields, kept so a rewrite round-trips them.
    pub extra: toml::map::Map<String, toml::Value>,
}

/// This machine's `sync.toml` for one catalog.
#[derive(Debug)]
pub struct SyncConfig {
    /// A read-only member never pushes.
    pub readonly: bool,
    pub locations: Vec<Location>,
    /// Unknown top-level fields, kept so a rewrite round-trips them.
    pub extra: toml::map::Map<String, toml::Value>,
}

/// The names of `locs`, in order.
pub open spec fn location_names(locs: Seq<Location>) -> Seq<Seq<char>> {
    locs.map_values(|l: Location| l.name@)
}

pub open spec fn no_locations_hint() -> Seq<char> {
    "no sync locations configured — add one with `maj sync location add <name> <path>`"@
}

pub open spec fn unknown_target_message(name: Seq<char>, locs: Seq<Location>) -> Seq<char> {
    "no sync location named '"@ + name + "' — configured: "@ + joined(location_names(locs), ", "@)
}

/// The first index of a location named `name`, if any.
pub open spec fn first_named(locs: Seq<Location>, name: Seq<char>) -> Option<int> {
    if exists|i: int| 0 <= i < locs.len() && #[trigger] locs[i].name@ == name {
        Some(
            choose|i: int|
                0 <= i < locs.len() && #[trigger] locs[i].name@ == name && forall|j: int|
                    0 <= j < i ==> #[trigger] locs[j].name@ != name,
        )
    } else {
        None
    }
}

/// The locations a command operates on, as indices into
/// `cfg.locations`: every one in order, or exactly the first one named
/// `name`.
pub open spec fn targets_spec(locs: Seq<Location>, name: Option<Seq<char>>) -> Result<Seq<int>, Seq<char>> {
    if locs.len() == 0 {
        Err(no_locations_hint())
    } else {
        match name {
            None => Ok(Seq::new(locs.len(), |i: int| i)),
            Some(n) => match first_named(locs, n) {
                Some(i) => Ok(seq![i]),
                None => Err(unknown_target_message(n, locs)),
            },
        }
    }
}

proof fn lemma_first_named(locs: Seq<Location>, name: Seq<char>, i: int)
    requires
        0 <= i < locs.len(),
        locs[i].name@ == name,
        forall|j: int| 0 <= j < i ==> #[trigger] locs[j].name@ != name,
    ensures
        first_named(locs, name) == Some(i),
{
    let k = choose|k: int|
        0 <= k < locs.len() && #[trigger] locs[k].name@ == name && forall|j: int|
            0 <= j < k ==> #[trigger] locs[j].name@ != name;
    assert(locs[i].name@ == name);
    if k < i {
        assert(locs[k].name@ != name);
    }
    if k > i {
        assert(locs[i].name@ != name);
    }
}

/// The names of the configured locations.
fn names_of(locs: &Vec<Location>) -> (names: Vec<String>)
    ensures
        string_views(names@) == location_names(locs@),
{
    let mut names: Vec<String> = Vec::new();
    let mut i: usize = 0;
    while i < locs.len()
        invariant
            i <= locs.len(),
            names.len() == i,
            forall|j: int| 0 <= j < i ==> #[trigger] names@[j]@ == locs@[j].name@,
        decreases locs.len() - i,
    {
        let n = locs[i].name.clone();
        names.push(n);
        i = i + 1;
    }
    assert(string_views(names@) =~= location_names(locs@));
    names
}

/// `v` lists exactly the indices `s`, in order.
pub open spec fn lists_indices(v: Seq<usize>, s: Seq<int>) -> bool {
    v.len() == s.len() && forall|k: int| 0 <= k < v.len() ==> #[trigger] v[k] as int == s[k]
}

/// The characters of an optional name.
pub open spec fn opt_view(name: Option<&str>) -> Option<Seq<char>> {
    match name {
        Some(n) => Some(n@),
        None => None,
    }
}

/// Locations to operate on: every configured location, or exactly the
/// named one, as indices into `cfg.locations`.
pub fn resolve_targets(cfg: &SyncConfig, name: Option<&str>) -> (r: Result<Vec<usize>, String>)
    ensures
        match (r, targets_spec(cfg.locations@, opt_view(name))) {
            (Ok(v), Ok(s)) => lists_indices(v@, s),
            (Err(m), Err(e)) => m@ == e,
            _ => false,
        },
{
    let n = cfg.locations.len();
    if n == 0 {
        return Err("no sync locations configured — add one with `maj sync location add <name> <path>`".to_owned());
    }
    match name {
        None => {
            let mut v: Vec<usize> = Vec::new();
            let mut i: usize = 0;
            while i < n
                invariant
                    i <= n,
                    v.len() == i,
                    forall|k: int| 0 <= k < i ==> #[trigger] v@[k] as int == k,
                decreases n - i,
            {
                v.push(i);
                i = i + 1;
            }
            Ok(v)
        },
        Some(nm) => {
            let mut i: usize = 0;
            while i < n
                invariant
                    n == cfg.locations.len(),
                    name == Some(nm),
                    i <= n,
                    forall|j: int| 0 <= j < i ==> #[trigger] cfg.locations@[j].name@ != nm@,
                decreases n - i,
            {
                if str_eq(cfg.locations[i].name.as_str(), nm) {
                    proof {
                        lemma_first_named(cfg.locations@, nm@, i as int);
                    }
                    let mut v: Vec<usize> = Vec::new();
                    v.push(i);
                    assert(lists_indices(v@, seq![i as int]));
                    return Ok(v);
                }
                i = i + 1;
            }
            let names = names_of(&cfg.locations);
            let known = join_strings(&names, ", ");
            let head = cat("no sync location named '", nm);
            let head = cat(head.as_str(), "' — configured: ");
            Err(cat(head.as_str(), known.as_str()))
        },
    }
}


/// One planned-but-failed file within a transfer that otherwise ran.
#[derive(Debug)]
pub struct FileFailure {
    pub path: String,
    pub error: String,
}

/// One location's push or pull result: it ran (possibly with per-file
/// failures), or it never ran because its mount was missing (`Skipped`) or
/// the transfer itself failed to set up or run (`Failed`).
#[derive(Debug)]
pub enum LocationRow {
    Ran {
        name: String,
        segments_copied: usize,
        segment_bytes: u64,
        blobs_copied: usize,
        blob_bytes: u64,
        /// `(machine, events)` this location contributed; a pull sums it.
        events_added: Vec<(String, usize)>,
        failures: Vec<FileFailure>,
    },
    Skipped { name: String, reason: String },
    Failed { name: String, error: String },
}

/// The location a row reports on.
pub open spec fn row_name(row: LocationRow) -> Seq<char> {
    match row {
        LocationRow::Ran { name, .. } => name@,
        LocationRow::Skipped { name, .. } => name@,
        LocationRow::Failed { name, .. } => name@,
    }
}

impl LocationRow {
    /// The location this row reports on.
    pub fn name(&self) -> (n: &str)
        ensures
            n@ == row_name(*self),
    {
        match self {
            LocationRow::Ran { name, .. } => name.as_str(),
            LocationRow::Skipped { name, .. } => name.as_str(),
            LocationRow::Failed { name, .. } => name.as_str(),
        }
    }
}


/// The row ran, whatever it reported.
pub open spec fn row_ran(row: LocationRow) -> bool {
    row is Ran
}

/// The row ran but some of its files failed.
pub open spec fn row_has_failures(row: LocationRow) -> bool {
    row matches LocationRow::Ran { failures, .. } && failures@.len() > 0
}

/// Not one location ran.
pub open spec fn none_ran(rows: Seq<LocationRow>) -> bool {
    forall|i: int| 0 <= i < rows.len() ==> !row_ran(#[trigger] rows[i])
}

/// The names of the locations that ran with per-file failures, in order.
pub open spec fn failing_names(rows: Seq<LocationRow>) -> Seq<Seq<char>>
    decreases rows.len(),
{
    if rows.len() == 0 {
        Seq::empty()
    } else {
        let rest = failing_names(rows.drop_last());
        if row_has_failures(rows.last()) {
            rest.push(row_name(rows.last()))
        } else {
            rest
        }
    }
}

/// The exit policy: a run failed when no location ran, or a location that
/// ran could not move every file.
pub open spec fn run_failed(rows: Seq<LocationRow>) -> bool {
    none_ran(rows) || failing_names(rows).len() > 0
}

/// The characters of each borrowed string.
pub open spec fn str_views(v: Seq<&str>) -> Seq<Seq<char>> {
    v.map_values(|s: &str| s@)
}

/// True when not one requested location ran.
pub fn no_location_ran(rows: &Vec<LocationRow>) -> (r: bool)
    ensures
        r == none_ran(rows@),
{
    let mut i: usize = 0;
    while i < rows.len()
        invariant
            i <= rows.len(),
            forall|j: int| 0 <= j < i ==> !row_ran(#[trigger] rows@[j]),
        decreases rows.len() - i,
    {
        if let LocationRow::Ran { .. } = &rows[i] {
            return false;
        }
        i = i + 1;
    }
    true
}

/// The names of every location that ran but had per-file failures.
pub fn failing_locations<'a>(rows: &'a Vec<LocationRow>) -> (names: Vec<&'a str>)
    ensures
        str_views(names@) == failing_names(rows@),
{
    let mut names: Vec<&'a str> = Vec::new();
    let mut i: usize = 0;
    while i < rows.len()
        invariant
            i <= rows.len(),
            str_views(names@) == failing_names(rows@.subrange(0, i as int)),
        decreases rows.len() - i,
    {
        let ghost before = rows@.subrange(0, i as int);
        match &rows[i] {
            LocationRow::Ran { name, failures, .. } => {
                if failures.len() > 0 {
                    names.push(name.as_str());
                }
            },
            _ => {},
        }
        i = i + 1;
        assert(rows@.subrange(0, i as int).drop_last() =~= before);
        assert(str_views(names@) =~= failing_names(rows@.subrange(0, i as int)));
    }
    assert(rows@.subrange(0, rows.len() as int) =~= rows@);
    names
}

/// Whether the run as a whole failed: no location ran, or one that ran
/// had per-file failures.
pub fn overall_failed(rows: &Vec<LocationRow>) -> (r: bool)
    ensures
        r == run_failed(rows@),
{
    no_location_ran(rows) || failing_locations(rows).len() > 0
}

proof fn lemma_failing_names_nonempty(rows: Seq<LocationRow>)
    ensures
        failing_names(rows).len() > 0 <==> exists|i: int|
            0 <= i < rows.len() && row_has_failures(#[trigger] rows[i]),
    decreases rows.len(),
{
    if rows.len() > 0 {
        lemma_failing_names_nonempty(rows.drop_last());
        if exists|i: int| 0 <= i < rows.len() && row_has_failures(#[trigger] rows[i]) {
            let i = choose|i: int| 0 <= i < rows.len() && row_has_failures(#[trigger] rows[i]);
            if i < rows.len() - 1 {
                assert(row_has_failures(rows.drop_last()[i]));
            }
        }
        if exists|i: int| 0 <= i < rows.len() - 1 && row_has_failures(#[trigger] rows.drop_last()[i]) {
            let i = choose|i: int| 0 <= i < rows.len() - 1 && row_has_failures(#[trigger] rows.drop_last()[i]);
            assert(row_has_failures(rows[i]));
        }
    }
}

/// A run counts as failed exactly when no location ran at all, or some
/// location that ran reported a per-file failure.
pub proof fn run_failed_iff_nothing_ran_or_a_file_failed(rows: Seq<LocationRow>)
    ensures
        run_failed(rows) <==> (!(exists|i: int| 0 <= i < rows.len() && row_ran(#[trigger] rows[i]))
            || exists|i: int| 0 <= i < rows.len() && row_has_failures(#[trigger] rows[i])),
{
    lemma_failing_names_nonempty(rows);
    if !none_ran(rows) {
        let i = choose|i: int| 0 <= i < rows.len() && row_ran(#[trigger] rows[i]);
        assert(row_ran(rows[i]));
    }
}

/// Everything `maj sync push` renders: one row per targeted location.
#[derive(Debug)]
pub struct PushOutcome {
    pub rows: Vec<LocationRow>,
}

impl PushOutcome {
    /// True when not one requested location ran.
    pub fn no_location_ran(&self) -> (r: bool)
        ensures
            r == none_ran(self.rows@),
    {
        no_location_ran(&self.rows)
    }

    /// The names of every location that ran but had per-file failures.
    pub fn failing_locations(&self) -> (names: Vec<&str>)
        ensures
            str_views(names@) == failing_names(self.rows@),
    {
        failing_locations(&self.rows)
    }

    /// The exit policy: see [`overall_failed`].
    pub fn overall_failed(&self) -> (r: bool)
        ensures
            r == run_failed(self.rows@),
    {
        overall_failed(&self.rows)
    }
}

/// Everything `maj sync pull` renders: one row per targeted location, plus
/// the events newly landed, the machines they came from, and the blobs
/// fetched.
#[derive(Debug)]
pub struct PullOutcome {
    pub rows: Vec<LocationRow>,
    pub applied_events: usize,
    pub machines: Vec<String>,
    pub blobs_fetched: usize,
}

impl PullOutcome {
    /// True when not one requested location ran.
    pub fn no_location_ran(&self) -> (r: bool)
        ensures
            r == none_ran(self.rows@),
    {
        no_location_ran(&self.rows)
    }

    /// The names of every location that ran but had per-file failures.
    pub fn failing_locations(&self) -> (names: Vec<&str>)
        ensures
            str_views(names@) == failing_names(self.rows@),
    {
        failing_locations(&self.rows)
    }

    /// The exit policy: see [`overall_failed`].
    pub fn overall_failed(&self) -> (r: bool)
        ensures
            r == run_failed(self.rows@),
    {
        overall_failed(&self.rows)
    }
}


/// The events a list of `(machine, events)` pairs adds up to.
pub open spec fn events_total(ev: Seq<(String, usize)>) -> nat
    decreases ev.len(),
{
    if ev.len() == 0 {
        0
    } else {
        events_total(ev.drop_last()) + (ev.last().1 as nat)
    }
}

/// The events a row landed: its per-machine events if it ran, else none.
pub open spec fn row_events(row: LocationRow) -> nat {
    match row {
        LocationRow::Ran { events_added, .. } => events_total(events_added@),
        _ => 0,
    }
}

/// The events every row landed, summed.
pub open spec fn rows_events(rows: Seq<LocationRow>) -> nat
    decreases rows.len(),
{
    if rows.len() == 0 {
        0
    } else {
        rows_events(rows.drop_last()) + row_events(rows.last())
    }
}

/// The blobs a row copied: its count if it ran, else none.
pub open spec fn row_blobs(row: LocationRow) -> nat {
    match row {
        LocationRow::Ran { blobs_copied, .. } => blobs_copied as nat,
        _ => 0,
    }
}

/// The blobs every row copied, summed.
pub open spec fn rows_blobs(rows: Seq<LocationRow>) -> nat
    decreases rows.len(),
{
    if rows.len() == 0 {
        0
    } else {
        rows_blobs(rows.drop_last()) + row_blobs(rows.last())
    }
}

/// The machines a row's events came from.
pub open spec fn row_machines(row: LocationRow) -> Set<Seq<char>> {
    match row {
        LocationRow::Ran { events_added, .. } => Set::new(
            |m: Seq<char>|
                exists|k: int| 0 <= k < events_added@.len() && #[trigger] events_added@[k].0@ == m,
        ),
        _ => Set::empty(),
    }
}

/// The machines any row's events came from.
pub open spec fn pulled_machines(rows: Seq<LocationRow>) -> Set<Seq<char>> {
    Set::new(|m: Seq<char>| exists|i: int| 0 <= i < rows.len() && #[trigger] row_machines(rows[i]).contains(m))
}

proof fn lemma_events_total_prefix(ev: Seq<(String, usize)>, k: int)
    requires
        0 <= k <= ev.len(),
    ensures
        events_total(ev.subrange(0, k)) <= events_total(ev),
        k < ev.len() ==> events_total(ev.subrange(0, k + 1)) == events_total(ev.subrange(0, k)) + ev[k].1,
    decreases ev.len(),
{
    if k < ev.len() {
        assert(ev.subrange(0, k + 1).drop_last() =~= ev.subrange(0, k));
        lemma_events_total_prefix(ev.drop_last(), k);
        assert(ev.drop_last().subrange(0, k) =~= ev.subrange(0, k));
        if k + 1 < ev.len() {
            lemma_events_total_prefix(ev.drop_last(), k + 1);
            assert(ev.drop_last().subrange(0, k + 1) =~= ev.subrange(0, k + 1));
        } else {
            assert(ev.subrange(0, k + 1) =~= ev);
        }
    } else {
        assert(ev.subrange(0, k) =~= ev);
    }
}

proof fn lemma_rows_prefix(rows: Seq<LocationRow>, k: int)
    requires
        0 <= k <= rows.len(),
    ensures
        rows_events(rows.subrange(0, k)) <= rows_events(rows),
        rows_blobs(rows.subrange(0, k)) <= rows_blobs(rows),
        k < rows.len() ==> rows_events(rows.subrange(0, k + 1)) == rows_events(rows.subrange(0, k))
            + row_events(rows[k]),
        k < rows.len() ==> rows_blobs(rows.subrange(0, k + 1)) == rows_blobs(rows.subrange(0, k))
            + row_blobs(rows[k]),
    decreases rows.len(),
{
    if k < rows.len() {
        assert(rows.subrange(0, k + 1).drop_last() =~= rows.subrange(0, k));
        lemma_rows_prefix(rows.drop_last(), k);
        assert(rows.drop_last().subrange(0, k) =~= rows.subrange(0, k));
        if k + 1 < rows.len() {
            lemma_rows_prefix(rows.drop_last(), k + 1);
            assert(rows.drop_last().subrange(0, k + 1) =~= rows.subrange(0, k + 1));
        } else {
            assert(rows.subrange(0, k + 1) =~= rows);
        }
    } else {
        assert(rows.subrange(0, k) =~= rows);
    }
}

/// The machines named in the first `k` pairs of `ev`.
pub open spec fn prefix_machines(ev: Seq<(String, usize)>, k: int) -> Set<Seq<char>> {
    Set::new(|m: Seq<char>| exists|q: int| 0 <= q < k && #[trigger] ev[q].0@ == m)
}

/// Sums a pull's rows into `(applied_events, machines, blobs_fetched)`:
/// every landed event, the machines they came from (sorted, each once),
/// and every blob copied.
pub fn summarize_pull(rows: &Vec<LocationRow>) -> (r: (usize, Vec<String>, usize))
    requires
        rows_events(rows@) <= usize::MAX,
        rows_blobs(rows@) <= usize::MAX,
    ensures
        r.0 == rows_events(rows@),
        r.2 == rows_blobs(rows@),
        strictly_sorted(r.1@),
        key_set(r.1@) == pulled_machines(rows@),
{
    let mut applied: usize = 0;
    let mut blobs: usize = 0;
    let mut machines: Vec<String> = Vec::new();
    let mut i: usize = 0;
    assert(key_set(machines@) =~= pulled_machines(rows@.subrange(0, 0)));
    while i < rows.len()
        invariant
            i <= rows.len(),
            rows_events(rows@) <= usize::MAX,
            rows_blobs(rows@) <= usize::MAX,
            applied == rows_events(rows@.subrange(0, i as int)),
            blobs == rows_blobs(rows@.subrange(0, i as int)),
            strictly_sorted(machines@),
            key_set(machines@) == pulled_machines(rows@.subrange(0, i as int)),
        decreases rows.len() - i,
    {
        let ghost done = rows@.subrange(0, i as int);
        let ghost next = rows@.subrange(0, i + 1);
        proof {
            lemma_rows_prefix(rows@, i as int);
            lemma_rows_prefix(rows@, i + 1);
            assert forall|m: Seq<char>| #[trigger] pulled_machines(next).contains(m) <==> (
            pulled_machines(done).contains(m) || row_machines(rows@[i as int]).contains(m)) by {
                if pulled_machines(next).contains(m) {
                    let w = choose|w: int| 0 <= w < next.len() && #[trigger] row_machines(next[w]).contains(m);
                    if w < i {
                        assert(row_machines(done[w]).contains(m));
                    }
                }
                if pulled_machines(done).contains(m) {
                    let w = choose|w: int| 0 <= w < done.len() && #[trigger] row_machines(done[w]).contains(m);
                    assert(row_machines(next[w]).contains(m));
                }
                if row_machines(rows@[i as int]).contains(m) {
                    assert(row_machines(next[i as int]).contains(m));
                }
            }
            assert(pulled_machines(next) =~= pulled_machines(done).union(row_machines(rows@[i as int])));
        }
        match &rows[i] {
            LocationRow::Ran { blobs_copied, events_added, .. } => {
                blobs = blobs + *blobs_copied;
                let mut k: usize = 0;
                assert(prefix_machines(events_added@, 0) =~= Set::empty());
                assert(pulled_machines(done).union(Set::empty()) =~= pulled_machines(done));
                while k < events_added.len()
                    invariant
                        k <= events_added.len(),
                        applied == rows_events(done) + events_total(events_added@.subrange(0, k as int)),
                        rows_events(done) + events_total(events_added@) <= usize::MAX,
                        strictly_sorted(machines@),
                        key_set(machines@) == pulled_machines(done).union(
                            prefix_machines(events_added@, k as int),
                        ),
                    decreases events_added.len() - k,
                {
                    proof {
                        lemma_events_total_prefix(events_added@, k as int);
                        lemma_events_total_prefix(events_added@, k + 1);
                    }
                    applied = applied + events_added[k].1;
                    let _ = insert_key(&mut machines, events_added[k].0.as_str());
                    proof {
                        assert forall|m: Seq<char>| #[trigger] prefix_machines(events_added@, k + 1).contains(m)
                            <==> (prefix_machines(events_added@, k as int).contains(m) || m
                            == events_added@[k as int].0@) by {
                            if prefix_machines(events_added@, k + 1).contains(m) {
                                let q = choose|q: int| 0 <= q < k + 1 && #[trigger] events_added@[q].0@ == m;
                                if q < k {
                                    assert(prefix_machines(events_added@, k as int).contains(m));
                                }
                            }
                            if prefix_machines(events_added@, k as int).contains(m) {
                                let q = choose|q: int| 0 <= q < k && #[trigger] events_added@[q].0@ == m;
                                assert(events_added@[q].0@ == m);
                            }
                            if m == events_added@[k as int].0@ {
                                assert(events_added@[k as int].0@ == m);
                            }
                        }
                        assert(prefix_machines(events_added@, k + 1) =~= prefix_machines(events_added@, k as int).insert(events_added@[k as int].0@));
                        assert(key_set(machines@) =~= pulled_machines(done).union(
                            prefix_machines(events_added@, k + 1)));
                    }
                    k = k + 1;
                }
                proof {
                    assert(events_added@.subrange(0, k as int) =~= events_added@);
                    assert(prefix_machines(events_added@, k as int) =~= row_machines(rows@[i as int]));
                }
            },
            _ => {
                assert(row_machines(rows@[i as int]) =~= Set::empty());
                assert(pulled_machines(done).union(Set::empty()) =~= pulled_machines(done));
            },
        }
        i = i + 1;
    }
    assert(rows@.subrange(0, rows.len() as int) =~= rows@);
    (applied, machines, blobs)
}


/// The class a blob belongs to on a sync location.
#[derive(Debug, Clone, Copy, PartialEq, Eq, Structural)]
pub enum BlobClass {
    Thumbs,
    Metadata,
    Vectors,
    Transcripts,
}

/// One blob a transfer would copy.
#[derive(Debug)]
pub struct BlobCopy {
    pub rel: String,
    pub class: BlobClass,
    pub size: u64,
}

/// One event segment a transfer would copy or extend: `src_len` bytes at
/// the source, `dst_len` already at the destination.
#[derive(Debug)]
pub struct SegmentCopy {
    pub machine: String,
    pub segment: String,
    pub src_len: u64,
    pub dst_len: u64,
}

/// What one direction of a transfer would copy.
#[derive(Debug)]
pub struct TransferPlan {
    pub segments: Vec<SegmentCopy>,
    pub blobs: Vec<BlobCopy>,
}

/// What one executed transfer reports.
#[derive(Debug)]
pub struct TransferOutcome {
    pub segments_copied: usize,
    pub segment_bytes: u64,
    pub blobs_copied: usize,
    pub blob_bytes: u64,
    pub events_added: Vec<(String, usize)>,
    /// `(path, error)` for each file that could not be copied.
    pub failures: Vec<(String, String)>,
}

/// One machine's pending segments within a direction: files, and bytes
/// the destination is missing.
#[derive(Debug, Clone, Copy, PartialEq, Eq, Structural)]
pub struct SegmentCounts {
    pub files: usize,
    pub bytes: u64,
}

/// Pending blobs by class, every class present even at zero.
#[derive(Debug, Clone, Copy, PartialEq, Eq, Structural)]
pub struct BlobCounts {
    pub thumbs: usize,
    pub metadata: usize,
    pub vectors: usize,
    pub transcripts: usize,
}

impl Default for BlobCounts {
    fn default() -> (c: Self)
        ensures
            c == (BlobCounts { thumbs: 0, metadata: 0, vectors: 0, transcripts: 0 }),
    {
        BlobCounts { thumbs: 0, metadata: 0, vectors: 0, transcripts: 0 }
    }
}

/// How many of `blobs` are of `class`.
pub open spec fn class_count(blobs: Seq<BlobCopy>, class: BlobClass) -> nat
    decreases blobs.len(),
{
    if blobs.len() == 0 {
        0
    } else {
        class_count(blobs.drop_last(), class) + if blobs.last().class == class {
            1nat
        } else {
            0nat
        }
    }
}

proof fn lemma_class_count_bound(blobs: Seq<BlobCopy>, class: BlobClass)
    ensures
        class_count(blobs, class) <= blobs.len(),
    decreases blobs.len(),
{
    if blobs.len() > 0 {
        lemma_class_count_bound(blobs.drop_last(), class);
    }
}

impl BlobCounts {
    /// Tallies `blobs` by class.
    pub fn from_blobs(blobs: &Vec<BlobCopy>) -> (c: Self)
        ensures
            c.thumbs == class_count(blobs@, BlobClass::Thumbs),
            c.metadata == class_count(blobs@, BlobClass::Metadata),
            c.vectors == class_count(blobs@, BlobClass::Vectors),
            c.transcripts == class_count(blobs@, BlobClass::Transcripts),
    {
        let mut c = BlobCounts { thumbs: 0, metadata: 0, vectors: 0, transcripts: 0 };
        let mut i: usize = 0;
        while i < blobs.len()
            invariant
                i <= blobs.len(),
                c.thumbs == class_count(blobs@.subrange(0, i as int), BlobClass::Thumbs),
                c.metadata == class_count(blobs@.subrange(0, i as int), BlobClass::Metadata),
                c.vectors == class_count(blobs@.subrange(0, i as int), BlobClass::Vectors),
                c.transcripts == class_count(blobs@.subrange(0, i as int), BlobClass::Transcripts),
            decreases blobs.len() - i,
        {
            let ghost next = blobs@.subrange(0, i + 1);
            proof {
                assert(next.drop_last() =~= blobs@.subrange(0, i as int));
                lemma_class_count_bound(next, BlobClass::Thumbs);
                lemma_class_count_bound(next, BlobClass::Metadata);
                lemma_class_count_bound(next, BlobClass::Vectors);
                lemma_class_count_bound(next, BlobClass::Transcripts);
            }
            match blobs[i].class {
                BlobClass::Thumbs => c.thumbs = c.thumbs + 1,
                BlobClass::Metadata => c.metadata = c.metadata + 1,
                BlobClass::Vectors => c.vectors = c.vectors + 1,
                BlobClass::Transcripts => c.transcripts = c.transcripts + 1,
            }
            i = i + 1;
        }
        assert(blobs@.subrange(0, blobs.len() as int) =~= blobs@);
        c
    }

    /// True when every class is at zero.
    pub fn is_empty(&self) -> (r: bool)
        ensures
            r == (self.thumbs == 0 && self.metadata == 0 && self.vectors == 0 && self.transcripts
                == 0),
    {
        self.thumbs == 0 && self.metadata == 0 && self.vectors == 0 && self.transcripts == 0
    }
}

/// The bytes a segment copy still has to move: what the source holds beyond
/// the destination, or nothing if the destination is not behind.
pub open spec fn missing_bytes(s: SegmentCopy) -> nat {
    if s.src_len >= s.dst_len {
        (s.src_len - s.dst_len) as nat
    } else {
        0
    }
}

/// How many of `segs` belong to machine `m`.
pub open spec fn machine_files(segs: Seq<SegmentCopy>, m: Seq<char>) -> nat
    decreases segs.len(),
{
    if segs.len() == 0 {
        0
    } else {
        machine_files(segs.drop_last(), m) + if segs.last().machine@ == m {
            1nat
        } else {
            0nat
        }
    }
}

/// The bytes machine `m`'s segments in `segs` still have to move.
pub open spec fn machine_bytes(segs: Seq<SegmentCopy>, m: Seq<char>) -> nat
    decreases segs.len(),
{
    if segs.len() == 0 {
        0
    } else {
        machine_bytes(segs.drop_last(), m) + if segs.last().machine@ == m {
            missing_bytes(segs.last())
        } else {
            0nat
        }
    }
}

/// The machines `segs` hold segments of.
pub open spec fn plan_machines(segs: Seq<SegmentCopy>) -> Set<Seq<char>> {
    Set::new(|m: Seq<char>| exists|k: int| 0 <= k < segs.len() && #[trigger] segs[k].machine@ == m)
}

/// One direction's pending work: segment counts per machine, sorted by
/// machine with each machine once, and blob counts by class.
#[derive(Debug)]
pub struct DirectionCounts {
    pub segments: Vec<(String, SegmentCounts)>,
    pub blobs: BlobCounts,
}

/// The machine keys of a direction's segment counts.
pub open spec fn count_keys(entries: Seq<(String, SegmentCounts)>) -> Seq<String> {
    entries.map_values(|e: (String, SegmentCounts)| e.0)
}

/// `d` tallies `plan` exactly: one entry per machine the plan's segments
/// belong to, in machine order, each with that machine's file count and
/// missing bytes; and the plan's blobs by class.
pub open spec fn counts_plan(d: DirectionCounts, plan: TransferPlan) -> bool {
    let segs = plan.segments@;
    &&& strictly_sorted(count_keys(d.segments@))
    &&& key_set(count_keys(d.segments@)) == plan_machines(segs)
    &&& forall|i: int|
        0 <= i < d.segments@.len() ==> {
            &&& (#[trigger] d.segments@[i]).1.files == machine_files(segs, d.segments@[i].0@)
            &&& d.segments@[i].1.bytes == machine_bytes(segs, d.segments@[i].0@)
        }
    &&& d.blobs.thumbs == class_count(plan.blobs@, BlobClass::Thumbs)
    &&& d.blobs.metadata == class_count(plan.blobs@, BlobClass::Metadata)
    &&& d.blobs.vectors == class_count(plan.blobs@, BlobClass::Vectors)
    &&& d.blobs.transcripts == class_count(plan.blobs@, BlobClass::Transcripts)
}

/// Every machine's missing bytes in `segs` fit in a `u64`.
pub open spec fn machine_bytes_fit(segs: Seq<SegmentCopy>) -> bool {
    forall|m: Seq<char>| #[trigger] machine_bytes(segs, m) <= u64::MAX
}

proof fn lemma_machine_prefix(segs: Seq<SegmentCopy>, k: int, m: Seq<char>)
    requires
        0 <= k <= segs.len(),
    ensures
        machine_bytes(segs.subrange(0, k), m) <= machine_bytes(segs, m),
        machine_files(segs.subrange(0, k), m) <= segs.len(),
    decreases segs.len(),
{
    lemma_machine_files_bound(segs.subrange(0, k), m);
    if k < segs.len() {
        lemma_machine_prefix(segs.drop_last(), k, m);
        assert(segs.drop_last().subrange(0, k) =~= segs.subrange(0, k));
    } else {
        assert(segs.subrange(0, k) =~= segs);
    }
}

proof fn lemma_machine_files_bound(segs: Seq<SegmentCopy>, m: Seq<char>)
    ensures
        machine_files(segs, m) <= segs.len(),
    decreases segs.len(),
{
    if segs.len() > 0 {
        lemma_machine_files_bound(segs.drop_last(), m);
    }
}

proof fn lemma_absent_machine(segs: Seq<SegmentCopy>, m: Seq<char>)
    requires
        !plan_machines(segs).contains(m),
    ensures
        machine_files(segs, m) == 0,
        machine_bytes(segs, m) == 0,
    decreases segs.len(),
{
    if segs.len() > 0 {
        assert(!plan_machines(segs.drop_last()).contains(m)) by {
            if plan_machines(segs.drop_last()).contains(m) {
                let k = choose|k: int| 0 <= k < segs.len() - 1 && #[trigger] segs.drop_last()[k].machine@ == m;
                assert(segs[k].machine@ == m);
            }
        }
        lemma_absent_machine(segs.drop_last(), m);
        if segs.last().machine@ == m {
            assert(segs[segs.len() - 1].machine@ == m);
        }
    }
}

impl DirectionCounts {
    /// Tallies one direction's plan: segments grouped per machine, blobs by
    /// class.
    pub fn from_plan(plan: &TransferPlan) -> (d: Self)
        requires
            machine_bytes_fit(plan.segments@),
        ensures
            counts_plan(d, *plan),
    {
        let segs = &plan.segments;
        let mut keys: Vec<String> = Vec::new();
        let mut counts: Vec<SegmentCounts> = Vec::new();
        let mut i: usize = 0;
        assert(key_set(keys@) =~= plan_machines(segs@.subrange(0, 0)));
        while i < segs.len()
            invariant
                i <= segs.len(),
                machine_bytes_fit(segs@),
                keys.len() == counts.len(),
                strictly_sorted(keys@),
                key_set(keys@) == plan_machines(segs@.subrange(0, i as int)),
                forall|j: int|
                    0 <= j < counts.len() ==> {
                        &&& (#[trigger] counts@[j]).files == machine_files(
                            segs@.subrange(0, i as int),
                            keys@[j]@,
                        )
                        &&& counts@[j].bytes == machine_bytes(segs@.subrange(0, i as int), keys@[j]@)
                    },
            decreases segs.len() - i,
        {
            let ghost done = segs@.subrange(0, i as int);
            let ghost next = segs@.subrange(0, i + 1);
            let ghost m = segs@[i as int].machine@;
            let missing: u64 = if segs[i].src_len >= segs[i].dst_len {
                segs[i].src_len - segs[i].dst_len
            } else {
                0
            };
            proof {
                assert(next.drop_last() =~= done);
                assert(next.last() == segs@[i as int]);
                lemma_machine_prefix(segs@, i + 1, m);
                assert(machine_bytes(segs@, m) <= u64::MAX);
                assert forall|x: Seq<char>| #[trigger] plan_machines(next).contains(x) <==> (
                plan_machines(done).contains(x) || x == m) by {
                    if plan_machines(next).contains(x) {
                        let k = choose|k: int| 0 <= k < next.len() && #[trigger] next[k].machine@ == x;
                        if k < i {
                            assert(done[k].machine@ == x);
                        }
                    }
                    if plan_machines(done).contains(x) {
                        let k = choose|k: int| 0 <= k < done.len() && #[trigger] done[k].machine@ == x;
                        assert(next[k].machine@ == x);
                    }
                    if x == m {
                        assert(next[i as int].machine@ == x);
                    }
                }
                assert(plan_machines(next) =~= plan_machines(done).insert(m));
            }
            let ghost old_counts = counts@;
            let ghost old_keys = keys@;
            let (idx, inserted) = insert_key(&mut keys, segs[i].machine.as_str());
            if inserted {
                proof {
                    lemma_absent_machine(done, m);
                }
                counts.insert(idx, SegmentCounts { files: 1, bytes: missing });
            } else {
                proof {
                    lemma_machine_files_bound(done, m);
                    lemma_machine_files_bound(next, m);
                }
                let old = counts[idx];
                counts.set(idx, SegmentCounts { files: old.files + 1, bytes: old.bytes + missing });
            }
            proof {
                assert forall|j: int| 0 <= j < counts.len() implies {
                    &&& (#[trigger] counts@[j]).files == machine_files(next, keys@[j]@)
                    &&& counts@[j].bytes == machine_bytes(next, keys@[j]@)
                } by {
                    if keys@[j]@ != m {
                        if inserted {
                            if j < idx {
                                assert(old_counts[j] == counts@[j]);
                            } else {
                                assert(old_counts[j - 1] == counts@[j]);
                                assert(old_keys[j - 1] == keys@[j]);
                            }
                        } else {
                            assert(j != idx);
                        }
                    } else {
                        if j != idx {
                            lemma_sorted_distinct(keys@, j, idx as int);
                        }
                    }
                }
            }
            i = i + 1;
        }
        assert(segs@.subrange(0, segs.len() as int) =~= segs@);
        let mut entries: Vec<(String, SegmentCounts)> = Vec::new();
        let mut j: usize = 0;
        while j < keys.len()
            invariant
                j <= keys.len(),
                keys.len() == counts.len(),
                entries.len() == j,
                forall|q: int| 0 <= q < j ==> (#[trigger] entries@[q]).0 == keys@[q] && entries@[q].1 == counts@[q],
            decreases keys.len() - j,
        {
            entries.push((keys[j].clone(), counts[j]));
            j = j + 1;
        }
        assert(count_keys(entries@) =~= keys@);
        DirectionCounts { segments: entries, blobs: BlobCounts::from_blobs(&plan.blobs) }
    }

    /// True when nothing is pending in this direction.
    pub fn is_empty(&self) -> (r: bool)
        ensures
            r == (self.segments@.len() == 0 && self.blobs.thumbs == 0 && self.blobs.metadata == 0
                && self.blobs.vectors == 0 && self.blobs.transcripts == 0),
    {
        self.segments.len() == 0 && self.blobs.is_empty()
    }
}


/// Narrows a transfer to one class of file.
#[derive(Debug, Clone, Copy, PartialEq, Eq, Structural)]
pub enum Only {
    Segments,
    Thumbs,
    Metadata,
    Vectors,
    Transcripts,
}

/// The blob class an `--only` names, if it names one.
pub open spec fn only_class(only: Only) -> Option<BlobClass> {
    match only {
        Only::Segments => None,
        Only::Thumbs => Some(BlobClass::Thumbs),
        Only::Metadata => Some(BlobClass::Metadata),
        Only::Vectors => Some(BlobClass::Vectors),
        Only::Transcripts => Some(BlobClass::Transcripts),
    }
}

/// `out` is `plan` narrowed by `only`: unchanged for no `--only`, the
/// segments alone for `Segments`, and otherwise the blobs of that class
/// alone, in their order.
pub open spec fn narrowed(out: TransferPlan, plan: TransferPlan, only: Option<Only>) -> bool {
    match only {
        None => out.segments@ == plan.segments@ && out.blobs@ == plan.blobs@,
        Some(o) => match only_class(o) {
            None => out.segments@ == plan.segments@ && out.blobs@.len() == 0,
            Some(c) => out.segments@.len() == 0 && out.blobs@ == plan.blobs@.filter(
                |b: BlobCopy| b.class == c,
            ),
        },
    }
}

/// `--only` narrows a plan to exactly what it names: `segments` keeps the
/// segments and no blob; `thumbs`, `metadata`, `vectors` and
/// `transcripts` keep no segment, and of the blobs exactly those of the
/// class they name (every kept blob has that class, every blob of that
/// class is kept, in order); no `--only` keeps everything.
pub proof fn only_keeps_what_it_names(out: TransferPlan, plan: TransferPlan, only: Option<Only>)
    requires
        narrowed(out, plan, only),
    ensures
        only is None ==> out.segments@ == plan.segments@ && out.blobs@ == plan.blobs@,
        only == Some(Only::Segments) ==> out.segments@ == plan.segments@ && out.blobs@.len() == 0,
        only == Some(Only::Thumbs) ==> out.segments@.len() == 0 && out.blobs@ == plan.blobs@.filter(
            |b: BlobCopy| b.class == BlobClass::Thumbs,
        ),
        only == Some(Only::Metadata) ==> out.segments@.len() == 0 && out.blobs@ == plan.blobs@.filter(
            |b: BlobCopy| b.class == BlobClass::Metadata,
        ),
        only == Some(Only::Vectors) ==> out.segments@.len() == 0 && out.blobs@ == plan.blobs@.filter(
            |b: BlobCopy| b.class == BlobClass::Vectors,
        ),
        only == Some(Only::Transcripts) ==> out.segments@.len() == 0 && out.blobs@ == plan.blobs@.filter(
            |b: BlobCopy| b.class == BlobClass::Transcripts,
        ),
        only is Some && only != Some(Only::Segments) ==> forall|i: int|
            0 <= i < out.blobs@.len() ==> (#[trigger] out.blobs@[i]).class == match only.unwrap() {
                Only::Thumbs => BlobClass::Thumbs,
                Only::Metadata => BlobClass::Metadata,
                Only::Vectors => BlobClass::Vectors,
                _ => BlobClass::Transcripts,
            },
{
    if only is Some && only != Some(Only::Segments) {
        let c = match only.unwrap() {
            Only::Thumbs => BlobClass::Thumbs,
            Only::Metadata => BlobClass::Metadata,
            Only::Vectors => BlobClass::Vectors,
            _ => BlobClass::Transcripts,
        };
        assert(out.blobs@ == plan.blobs@.filter(|b: BlobCopy| b.class == c));
        assert forall|i: int| 0 <= i < out.blobs@.len() implies (#[trigger] out.blobs@[i]).class == c by {
            plan.blobs@.filter_lemma(|b: BlobCopy| b.class == c);
        }
    }
}

fn copy_blob(b: &BlobCopy) -> (c: BlobCopy)
    ensures
        c == *b,
{
    BlobCopy { rel: b.rel.clone(), class: b.class, size: b.size }
}

/// Narrows `plan` to one transfer class; `None` returns it unchanged.
pub fn filter_plan(plan: TransferPlan, only: Option<Only>) -> (out: TransferPlan)
    ensures
        narrowed(out, plan, only),
{
    let class = match only {
        None => {
            return plan;
        },
        Some(Only::Segments) => {
            return TransferPlan { segments: plan.segments, blobs: Vec::new() };
        },
        Some(Only::Thumbs) => BlobClass::Thumbs,
        Some(Only::Metadata) => BlobClass::Metadata,
        Some(Only::Vectors) => BlobClass::Vectors,
        Some(Only::Transcripts) => BlobClass::Transcripts,
    };
    let ghost pred = |b: BlobCopy| b.class == class;
    let mut kept: Vec<BlobCopy> = Vec::new();
    let mut i: usize = 0;
    proof {
        reveal(Seq::filter);
        assert(kept@ =~= plan.blobs@.subrange(0, 0).filter(pred));
    }
    while i < plan.blobs.len()
        invariant
            i <= plan.blobs.len(),
            kept@ == plan.blobs@.subrange(0, i as int).filter(pred),
            pred == (|b: BlobCopy| b.class == class),
        decreases plan.blobs.len() - i,
    {
        let ghost done = plan.blobs@.subrange(0, i as int);
        proof {
            reveal(Seq::filter);
            assert(plan.blobs@.subrange(0, i + 1).drop_last() =~= done);
        }
        if plan.blobs[i].class == class {
            kept.push(copy_blob(&plan.blobs[i]));
        }
        i = i + 1;
    }
    assert(plan.blobs@.subrange(0, plan.blobs.len() as int) =~= plan.blobs@);
    TransferPlan { segments: Vec::new(), blobs: kept }
}

/// One location's status: both directions' counts, or why there are none.
#[derive(Debug)]
pub enum StatusRow {
    Reachable { name: String, ahead: DirectionCounts, behind: DirectionCounts },
    Unreachable { name: String, path: String },
    Failed { name: String, error: String },
}

/// Everything `maj sync status` renders.
#[derive(Debug)]
pub struct SyncStatusOutcome {
    pub rows: Vec<StatusRow>,
    pub readonly: bool,
}

/// What probing one location for `status` found: its mount was missing,
/// both directions planned, or planning failed with a message.
#[derive(Debug)]
pub enum StatusProbe {
    Unreachable,
    Planned { ahead: TransferPlan, behind: TransferPlan },
    PlanFailed(String),
}

/// Both plans of a probe keep every machine's byte total within a `u64`.
pub open spec fn probe_fits(probe: StatusProbe) -> bool {
    probe matches StatusProbe::Planned { ahead, behind } ==> machine_bytes_fit(ahead.segments@)
        && machine_bytes_fit(behind.segments@)
}

/// `row` reports `probe` for the location `loc`.
pub open spec fn status_row_of(row: StatusRow, loc: Location, probe: StatusProbe) -> bool {
    match probe {
        StatusProbe::Unreachable => row matches StatusRow::Unreachable { name, path } && name@
            == loc.name@ && path@ == loc.path@,
        StatusProbe::Planned { ahead, behind } => row matches StatusRow::Reachable {
            name,
            ahead: a,
            behind: b,
        } && name@ == loc.name@ && counts_plan(a, ahead) && counts_plan(b, behind),
        StatusProbe::PlanFailed(e) => row matches StatusRow::Failed { name, error } && name@
            == loc.name@ && error@ == e@,
    }
}

/// The status row for one location, from what probing it found.
pub fn status_row(loc: &Location, probe: StatusProbe) -> (row: StatusRow)
    requires
        probe_fits(probe),
    ensures
        status_row_of(row, *loc, probe),
{
    match probe {
        StatusProbe::Unreachable => StatusRow::Unreachable {
            name: loc.name.clone(),
            path: loc.path.clone(),
        },
        StatusProbe::Planned { ahead, behind } => StatusRow::Reachable {
            name: loc.name.clone(),
            ahead: DirectionCounts::from_plan(&ahead),
            behind: DirectionCounts::from_plan(&behind),
        },
        StatusProbe::PlanFailed(error) => StatusRow::Failed { name: loc.name.clone(), error },
    }
}

/// What running one location's transfer reported: its mount was missing,
/// the transfer ran, or it failed to set up or run.
#[derive(Debug)]
pub enum TransferRun {
    Unreachable,
    Ran(TransferOutcome),
    Failed(String),
}

pub open spec fn skipped_reason(path: Seq<char>) -> Seq<char> {
    "unreachable at "@ + path + " — skipped"@
}

/// `out` lists `src`'s `(path, error)` pairs as file failures, in order.
pub open spec fn failures_of(out: Seq<FileFailure>, src: Seq<(String, String)>) -> bool {
    out.len() == src.len() && forall|k: int|
        0 <= k < out.len() ==> (#[trigger] out[k]).path == src[k].0 && out[k].error == src[k].1
}

/// `row` reports `run` for the location `loc`.
pub open spec fn location_row_of(row: LocationRow, loc: Location, run: TransferRun) -> bool {
    match run {
        TransferRun::Unreachable => row matches LocationRow::Skipped { name, reason } && name@
            == loc.name@ && reason@ == skipped_reason(loc.path@),
        TransferRun::Ran(o) => row matches LocationRow::Ran {
            name,
            segments_copied,
            segment_bytes,
            blobs_copied,
            blob_bytes,
            events_added,
            failures,
        } && name@ == loc.name@ && segments_copied == o.segments_copied && segment_bytes
            == o.segment_bytes && blobs_copied == o.blobs_copied && blob_bytes == o.blob_bytes
            && events_added@ == o.events_added@ && failures_of(failures@, o.failures@),
        TransferRun::Failed(e) => row matches LocationRow::Failed { name, error } && name@
            == loc.name@ && error@ == e@,
    }
}

/// The push or pull row for one location, from what its transfer reported.
pub fn location_row(loc: &Location, run: TransferRun) -> (row: LocationRow)
    ensures
        location_row_of(row, *loc, run),
{
    match run {
        TransferRun::Unreachable => {
            let head = cat("unreachable at ", loc.path.as_str());
            LocationRow::Skipped { name: loc.name.clone(), reason: cat(head.as_str(), " — skipped") }
        },
        TransferRun::Ran(outcome) => {
            let TransferOutcome {
                segments_copied,
                segment_bytes,
                blobs_copied,
                blob_bytes,
                events_added,
                failures,
            } = outcome;
            let ghost src = failures@;
            let mut rest = failures;
            let mut out: Vec<FileFailure> = Vec::new();
            while rest.len() > 0
                invariant
                    out.len() + rest.len() == src.len(),
                    rest@ == src.subrange(out.len() as int, src.len() as int),
                    failures_of(out@, src.subrange(0, out.len() as int)),
                decreases rest.len(),
            {
                let (path, error) = rest.remove(0);
                out.push(FileFailure { path, error });
                assert(rest@ =~= src.subrange(out.len() as int, src.len() as int));
            }
            assert(src.subrange(0, out.len() as int) =~= src);
            LocationRow::Ran {
                name: loc.name.clone(),
                segments_copied,
                segment_bytes,
                blobs_copied,
                blob_bytes,
                events_added,
                failures: out,
            }
        },
        TransferRun::Failed(error) => LocationRow::Failed { name: loc.name.clone(), error },
    }
}

/// The `sync.toml` path inside this machine's state dir for a catalog.
pub fn config_path(state_dir: &str) -> (p: String)
    ensures
        p@ == path_join(state_dir@, "sync.toml"@),
{
    join_path(state_dir, "sync.toml")
}

/// What the host found when it checked a location path for `location add`:
/// not an accessible directory, a directory it could not canonicalize, one
/// whose canonical path is not UTF-8 (shown lossily), or its canonical path.
#[derive(Debug)]
pub enum PathProbe {
    NotADirectory,
    CanonicalizeFailed,
    NotUtf8(String),
    Canonical(String),
}

pub open spec fn empty_name_message() -> Seq<char> {
    "sync location name must not be empty"@
}

pub open spec fn not_a_directory_message(location: Seq<char>) -> Seq<char> {
    location + " is not an accessible directory — mount it or check the path"@
}

pub open spec fn canonicalize_message(location: Seq<char>) -> Seq<char> {
    "canonicalizing "@ + location
}

pub open spec fn not_utf8_message(shown: Seq<char>) -> Seq<char> {
    shown
        + " is not valid UTF-8 — sync locations must have UTF-8 paths so they can be stored in sync.toml"@
}

pub open spec fn duplicate_message(name: Seq<char>) -> Seq<char> {
    "sync location '"@ + name + "' is already configured — remove it first with `maj sync location rm "@
        + name + "`"@
}

pub open spec fn unknown_rm_message(name: Seq<char>) -> Seq<char> {
    "no sync location named '"@ + name + "' — see `maj sync location list`"@
}

/// Some configured location is named `name`.
pub open spec fn has_location(locs: Seq<Location>, name: Seq<char>) -> bool {
    exists|i: int| 0 <= i < locs.len() && #[trigger] locs[i].name@ == name
}

/// Why `location add` refuses `name` at `location`, if it does: checked in
/// the order the name, the path, then the existing locations.
pub open spec fn add_refusal(locs: Seq<Location>, name: Seq<char>, location: Seq<char>, probe: PathProbe) -> Option<
    Seq<char>,
> {
    let n = trimmed(name);
    if n.len() == 0 {
        Some(empty_name_message())
    } else {
        match probe {
            PathProbe::NotADirectory => Some(not_a_directory_message(location)),
            PathProbe::CanonicalizeFailed => Some(canonicalize_message(location)),
            PathProbe::NotUtf8(shown) => Some(not_utf8_message(shown@)),
            PathProbe::Canonical(_) => if has_location(locs, n) {
                Some(duplicate_message(n))
            } else {
                None
            },
        }
    }
}

/// The error a refusal message becomes.
pub open spec fn is_other(e: ServiceError, message: Seq<char>) -> bool {
    e matches ServiceError::Other(m) && m@ == message
}

fn other(message: String) -> (e: ServiceError)
    ensures
        is_other(e, message@),
{
    ServiceError::Other(message)
}

/// Registers a new sync location named `name` (trimmed) at the canonical
/// path the host found for `location`, after the old ones. On success
/// returns the skeleton directories (`events`, `blobs`) the host creates
/// there before it stores the config; on refusal leaves `cfg` unchanged.
pub fn location_add(cfg: &mut SyncConfig, name: &str, location: &str, probe: PathProbe) -> (r: Result<
    Vec<String>,
    ServiceError,
>)
    ensures
        match add_refusal(old(cfg).locations@, name@, location@, probe) {
            Some(m) => r matches Err(e) && is_other(e, m) && final(cfg).locations@ == old(
                cfg,
            ).locations@,
            None => probe matches PathProbe::Canonical(canonical) && r matches Ok(dirs) && {
                &&& final(cfg).locations@.len() == old(cfg).locations@.len() + 1
                &&& final(cfg).locations@.drop_last() == old(cfg).locations@
                &&& final(cfg).locations@.last().name@ == trimmed(name@)
                &&& final(cfg).locations@.last().path@ == canonical@
                &&& toml_table_keys(final(cfg).locations@.last().extra) == Set::<Seq<char>>::empty()
                &&& string_views(dirs@) == seq![
                    path_join(canonical@, "events"@),
                    path_join(canonical@, "blobs"@),
                ]
            },
        },
        final(cfg).readonly == old(cfg).readonly,
        final(cfg).extra == old(cfg).extra,
{
    let n = trim(name);
    if n.as_str().unicode_len() == 0 {
        return Err(other("sync location name must not be empty".to_owned()));
    }
    let canonical = match probe {
        PathProbe::NotADirectory => {
            return Err(
                other(cat(location, " is not an accessible directory — mount it or check the path")),
            );
        },
        PathProbe::CanonicalizeFailed => {
            return Err(other(cat("canonicalizing ", location)));
        },
        PathProbe::NotUtf8(shown) => {
            return Err(
                other(
                    cat(
                        shown.as_str(),
                        " is not valid UTF-8 — sync locations must have UTF-8 paths so they can be stored in sync.toml",
                    ),
                ),
            );
        },
        PathProbe::Canonical(c) => c,
    };
    let mut i: usize = 0;
    while i < cfg.locations.len()
        invariant
            i <= cfg.locations.len(),
            cfg.locations@ == old(cfg).locations@,
            n@ == trimmed(name@),
            n@.len() > 0,
            probe matches PathProbe::Canonical(c) && c == canonical,
            forall|j: int| 0 <= j < i ==> #[trigger] cfg.locations@[j].name@ != n@,
        decreases cfg.locations.len() - i,
    {
        if str_eq(cfg.locations[i].name.as_str(), n.as_str()) {
            assert(cfg.locations@[i as int].name@ == n@);
            let head = cat("sync location '", n.as_str());
            let head = cat(head.as_str(), "' is already configured — remove it first with `maj sync location rm ");
            let head = cat(head.as_str(), n.as_str());
            return Err(other(cat(head.as_str(), "`")));
        }
        i = i + 1;
    }
    let mut dirs: Vec<String> = Vec::new();
    dirs.push(join_path(canonical.as_str(), "events"));
    dirs.push(join_path(canonical.as_str(), "blobs"));
    assert(string_views(dirs@) =~= seq![
        path_join(canonical@, "events"@),
        path_join(canonical@, "blobs"@),
    ]);
    let ghost before = cfg.locations@;
    cfg.locations.push(Location { name: n, path: canonical, extra: empty_table() });
    assert(cfg.locations@.drop_last() =~= before);
    Ok(dirs)
}

/// The locations other than those named `name`, in order.
pub open spec fn without_name(locs: Seq<Location>, name: Seq<char>) -> Seq<Location> {
    locs.filter(|l: Location| l.name@ != name)
}

/// Removes every location named `name` from the config; refuses, leaving
/// it unchanged, when none is.
pub fn location_rm(cfg: &mut SyncConfig, name: &str) -> (r: Result<(), ServiceError>)
    ensures
        final(cfg).locations@ == without_name(old(cfg).locations@, name@),
        final(cfg).readonly == old(cfg).readonly,
        final(cfg).extra == old(cfg).extra,
        has_location(old(cfg).locations@, name@) <==> r is Ok,
        r matches Err(e) ==> is_other(e, unknown_rm_message(name@)),
{
    let ghost orig = cfg.locations@;
    let ghost pred = |l: Location| l.name@ != name@;
    let mut rest: Vec<Location> = Vec::new();
    std::mem::swap(&mut rest, &mut cfg.locations);
    let mut kept: Vec<Location> = Vec::new();
    let mut removed = false;
    let mut done: usize = 0;
    proof {
        reveal(Seq::filter);
        assert(kept@ =~= orig.subrange(0, 0).filter(pred));
        assert(orig.subrange(0, orig.len() as int) =~= orig);
    }
    assert(orig.len() == rest.len());
    while rest.len() > 0
        invariant
            done + rest.len() == orig.len(),
            orig.len() <= usize::MAX,
            rest@ == orig.subrange(done as int, orig.len() as int),
            kept@ == orig.subrange(0, done as int).filter(pred),
            pred == (|l: Location| l.name@ != name@),
            removed == has_location(orig.subrange(0, done as int), name@),
        decreases rest.len(),
    {
        let l = rest.remove(0);
        proof {
            reveal(Seq::filter);
            assert(orig.subrange(0, done + 1).drop_last() =~= orig.subrange(0, done as int));
            assert(orig.subrange(0, done + 1).last() == l);
            if has_location(orig.subrange(0, done + 1), name@) {
                let w = choose|w: int| 0 <= w < done + 1 && #[trigger] orig.subrange(0, done + 1)[w].name@ == name@;
                if w < done {
                    assert(orig.subrange(0, done as int)[w].name@ == name@);
                }
            }
            if has_location(orig.subrange(0, done as int), name@) {
                let w = choose|w: int| 0 <= w < done && #[trigger] orig.subrange(0, done as int)[w].name@ == name@;
                assert(orig.subrange(0, done + 1)[w].name@ == name@);
            }
            if l.name@ == name@ {
                assert(orig.subrange(0, done + 1)[done as int].name@ == name@);
            }
        }
        if str_eq(l.name.as_str(), name) {
            removed = true;
        } else {
            kept.push(l);
        }
        done = done + 1;
        assert(rest@ =~= orig.subrange(done as int, orig.len() as int));
    }
    assert(orig.subrange(0, done as int) =~= orig);
    cfg.locations = kept;
    if !removed {
        let head = cat("no sync location named '", name);
        return Err(other(cat(head.as_str(), "' — see `maj sync location list`")));
    }
    Ok(())
}

/// Adding a location and then removing it by the name it was stored under
/// gives back exactly the locations there were before.
pub proof fn location_rm_undoes_location_add(
    before: Seq<Location>,
    after: Seq<Location>,
    name: Seq<char>,
)
    requires
        !has_location(before, trimmed(name)),
        after.len() == before.len() + 1,
        after.drop_last() == before,
        after.last().name@ == trimmed(name),
    ensures
        without_name(after, trimmed(name)) == before,
{
    let n = trimmed(name);
    let pred = |l: Location| l.name@ != n;
    lemma_filter_keeps_all(before, n);
    reveal(Seq::filter);
    assert(after.drop_last() == before);
    assert(!pred(after.last()));
    assert(after.filter(pred) == after.drop_last().filter(pred));
}

proof fn lemma_filter_keeps_all(locs: Seq<Location>, n: Seq<char>)
    requires
        !has_location(locs, n),
    ensures
        without_name(locs, n) == locs,
    decreases locs.len(),
{
    reveal(Seq::filter);
    if locs.len() > 0 {
        assert(!has_location(locs.drop_last(), n)) by {
            if has_location(locs.drop_last(), n) {
                let w = choose|w: int| 0 <= w < locs.len() - 1 && #[trigger] locs.drop_last()[w].name@ == n;
                assert(locs[w].name@ == n);
            }
        }
        lemma_filter_keeps_all(locs.drop_last(), n);
        assert(locs[locs.len() - 1].name@ != n);
        assert(locs.drop_last().push(locs.last()) =~= locs);
    }
}

/// The "no catalog at <root>" refusal, for `catalog`.
pub open spec fn is_no_catalog(e: ServiceError, catalog: Seq<char>) -> bool {
    e matches ServiceError::NoCatalog { root } && root@ == catalog
}

/// `r` is the result of resolving `name` against `locs`: the targets'
/// indices, or the refusal as an error.
pub open spec fn resolves_to(r: Result<Vec<usize>, ServiceError>, locs: Seq<Location>, name: Option<Seq<char>>) -> bool {
    match targets_spec(locs, name) {
        Ok(s) => r matches Ok(v) && lists_indices(v@, s),
        Err(m) => r matches Err(e) && is_other(e, m),
    }
}

fn targets_or_error(cfg: &SyncConfig, name: Option<&str>) -> (r: Result<Vec<usize>, ServiceError>)
    ensures
        resolves_to(r, cfg.locations@, opt_view(name)),
{
    match resolve_targets(cfg, name) {
        Ok(v) => Ok(v),
        Err(m) => Err(other(m)),
    }
}

/// `maj sync push` request: which location to target (all when `None`),
/// and which transfer class to narrow to.
#[derive(Debug)]
pub struct PushRequest<'a> {
    pub location: Option<&'a str>,
    pub only: Option<Only>,
}

/// `maj sync pull` request: as for push; a read-only member still pulls.
#[derive(Debug)]
pub struct PullRequest<'a> {
    pub location: Option<&'a str>,
    pub only: Option<Only>,
}

pub open spec fn readonly_message(config: Seq<char>) -> Seq<char> {
    "readonly = true in "@ + config
        + " — this machine is a read-only sync member and never pushes — set `readonly = false` there to push from this machine"@
}

/// `maj sync push`: the locations (indices into `cfg.locations`, in order)
/// this push transfers to, each then run by the host and reported with
/// [`location_row`]. Refuses when there is no catalog, when this machine is
/// a read-only member (naming its config file `config`), and when no
/// location is configured or none matches `req.location`.
pub fn push(catalog: &str, catalog_exists: bool, config: &str, cfg: &SyncConfig, req: &PushRequest) -> (r:
    Result<Vec<usize>, ServiceError>)
    ensures
        !catalog_exists ==> (r matches Err(e) && is_no_catalog(e, catalog@)),
        catalog_exists && cfg.readonly ==> (r matches Err(e) && is_other(e, readonly_message(config@))),
        catalog_exists && !cfg.readonly ==> resolves_to(r, cfg.locations@, opt_view(req.location)),
{
    if !catalog_exists {
        return Err(ServiceError::NoCatalog { root: catalog.to_owned() });
    }
    if cfg.readonly {
        let head = cat("readonly = true in ", config);
        return Err(
            other(
                cat(
                    head.as_str(),
                    " — this machine is a read-only sync member and never pushes — set `readonly = false` there to push from this machine",
                ),
            ),
        );
    }
    targets_or_error(cfg, req.location)
}

/// `maj sync pull`: the locations (indices into `cfg.locations`, in order)
/// this pull fetches from. Refuses when there is no catalog, and when no
/// location is configured or none matches `req.location`; unlike push,
/// never for a read-only member.
pub fn pull(catalog: &str, catalog_exists: bool, cfg: &SyncConfig, req: &PullRequest) -> (r: Result<
    Vec<usize>,
    ServiceError,
>)
    ensures
        !catalog_exists ==> (r matches Err(e) && is_no_catalog(e, catalog@)),
        catalog_exists ==> resolves_to(r, cfg.locations@, opt_view(req.location)),
{
    if !catalog_exists {
        return Err(ServiceError::NoCatalog { root: catalog.to_owned() });
    }
    targets_or_error(cfg, req.location)
}

/// A pull's result once every targeted location's transfer ran and the
/// host tried to apply the landed events to the local catalog: the rows
/// with their tally, or — when the apply failed — the rows carried inside
/// the error, so completed transfers are never lost.
pub fn pull_outcome(rows: Vec<LocationRow>, applied: Result<(), String>) -> (r: Result<
    PullOutcome,
    ServiceError,
>)
    requires
        applied is Ok ==> rows_events(rows@) <= usize::MAX && rows_blobs(rows@) <= usize::MAX,
    ensures
        match applied {
            Err(message) => r matches Err(ServiceError::SyncPullApplyFailed { rows: carried, source })
                && carried@ == rows@ && source@ == message@,
            Ok(_) => r matches Ok(o) && {
                &&& o.rows@ == rows@
                &&& o.applied_events == rows_events(rows@)
                &&& o.blobs_fetched == rows_blobs(rows@)
                &&& strictly_sorted(o.machines@)
                &&& key_set(o.machines@) == pulled_machines(rows@)
            },
        },
{
    match applied {
        Err(source) => Err(ServiceError::SyncPullApplyFailed { rows, source }),
        Ok(()) => {
            let (applied_events, machines, blobs_fetched) = summarize_pull(&rows);
            Ok(PullOutcome { rows, applied_events, machines, blobs_fetched })
        },
    }
}

/// `maj sync status`: one row per configured location, from what probing
/// each (in order) found, and whether this machine is read-only. Refuses
/// when there is no catalog or no location is configured.
pub fn status(catalog: &str, catalog_exists: bool, cfg: &SyncConfig, probes: Vec<StatusProbe>) -> (r:
    Result<SyncStatusOutcome, ServiceError>)
    requires
        probes.len() == cfg.locations.len(),
        forall|i: int| 0 <= i < probes.len() ==> probe_fits(#[trigger] probes@[i]),
    ensures
        !catalog_exists ==> (r matches Err(e) && is_no_catalog(e, catalog@)),
        catalog_exists && cfg.locations.len() == 0 ==> (r matches Err(e) && is_other(
            e,
            no_locations_hint(),
        )),
        catalog_exists && cfg.locations.len() > 0 ==> (r matches Ok(o) && {
            &&& o.readonly == cfg.readonly
            &&& o.rows.len() == cfg.locations.len()
            &&& forall|i: int|
                0 <= i < o.rows.len() ==> status_row_of(
                    #[trigger] o.rows@[i],
                    cfg.locations@[i],
                    probes@[i],
                )
        }),
{
    if !catalog_exists {
        return Err(ServiceError::NoCatalog { root: catalog.to_owned() });
    }
    if cfg.locations.len() == 0 {
        return Err(other(
            "no sync locations configured — add one with `maj sync location add <name> <path>`".to_owned(),
        ));
    }
    let ghost all = probes@;
    let mut rest = probes;
    let mut rows: Vec<StatusRow> = Vec::new();
    while rest.len() > 0
        invariant
            rows.len() + rest.len() == all.len(),
            all.len() == cfg.locations.len(),
            rest@ == all.subrange(rows.len() as int, all.len() as int),
            forall|i: int| 0 <= i < all.len() ==> probe_fits(#[trigger] all[i]),
            forall|i: int|
                0 <= i < rows.len() ==> status_row_of(#[trigger] rows@[i], cfg.locations@[i], all[i]),
        decreases rest.len(),
    {
        let k = rows.len();
        let probe = rest.remove(0);
        assert(probe == all[k as int]);
        rows.push(status_row(&cfg.locations[k], probe));
        assert(rest@ =~= all.subrange(rows.len() as int, all.len() as int));
    }
    Ok(SyncStatusOutcome { rows, readonly: cfg.readonly })
}

/// The events a location's transfer landed: its per-machine events if it
/// ran, else none.
pub open spec fn run_events(run: TransferRun) -> nat {
    match run {
        TransferRun::Ran(o) => events_total(o.events_added@),
        _ => 0,
    }
}

/// The blobs a location's transfer copied: its count if it ran, else none.
pub open spec fn run_blobs(run: TransferRun) -> nat {
    match run {
        TransferRun::Ran(o) => o.blobs_copied as nat,
        _ => 0,
    }
}

pub open spec fn runs_events(runs: Seq<TransferRun>) -> nat
    decreases runs.len(),
{
    if runs.len() == 0 {
        0
    } else {
        runs_events(runs.drop_last()) + run_events(runs.last())
    }
}

pub open spec fn runs_blobs(runs: Seq<TransferRun>) -> nat
    decreases runs.len(),
{
    if runs.len() == 0 {
        0
    } else {
        runs_blobs(runs.drop_last()) + run_blobs(runs.last())
    }
}

/// `rows` are the rows of the targeted locations' transfers, one per
/// target, in order.
pub open spec fn rows_of_runs(rows: Seq<LocationRow>, locs: Seq<Location>, targets: Seq<usize>, runs: Seq<TransferRun>) -> bool {
    &&& rows.len() == targets.len()
    &&& forall|i: int| 0 <= i < rows.len() ==> location_row_of(#[trigger] rows[i], locs[targets[i] as int], runs[i])
}

proof fn lemma_rows_tally(rows: Seq<LocationRow>, locs: Seq<Location>, targets: Seq<usize>, runs: Seq<TransferRun>)
    requires
        runs.len() == targets.len(),
        rows_of_runs(rows, locs, targets, runs),
    ensures
        rows_events(rows) == runs_events(runs),
        rows_blobs(rows) == runs_blobs(runs),
    decreases rows.len(),
{
    if rows.len() > 0 {
        let n = rows.len() - 1;
        assert(location_row_of(rows[n], locs[targets[n] as int], runs[n]));
        assert(rows_of_runs(rows.drop_last(), locs, targets.drop_last(), runs.drop_last())) by {
            assert forall|i: int| 0 <= i < rows.drop_last().len() implies location_row_of(
                #[trigger] rows.drop_last()[i],
                locs[targets.drop_last()[i] as int],
                runs.drop_last()[i],
            ) by {
                assert(location_row_of(rows[i], locs[targets[i] as int], runs[i]));
            }
        }
        lemma_rows_tally(rows.drop_last(), locs, targets.drop_last(), runs.drop_last());
    }
}

/// A pull once its targets (`targets`, from `pull`) were transferred, in
/// order (`runs[i]` is what `targets[i]`'s transfer reported), and the host
/// tried to apply the landed events locally (`applied`): every target's
/// row, and either the tally or, when the apply failed, the apply-failure
/// error carrying every row, so completed transfers are never lost.
pub fn pull_run(cfg: &SyncConfig, targets: &Vec<usize>, runs: Vec<TransferRun>, applied: Result<(), String>) -> (r: Result<
    PullOutcome,
    ServiceError,
>)
    requires
        runs.len() == targets.len(),
        forall|i: int| 0 <= i < targets.len() ==> #[trigger] targets@[i] < cfg.locations.len(),
        applied is Ok ==> runs_events(runs@) <= usize::MAX && runs_blobs(runs@) <= usize::MAX,
    ensures
        match applied {
            Err(message) => r matches Err(ServiceError::SyncPullApplyFailed { rows, source })
                && rows_of_runs(rows@, cfg.locations@, targets@, runs@) && source@ == message@,
            Ok(_) => r matches Ok(o) && {
                &&& rows_of_runs(o.rows@, cfg.locations@, targets@, runs@)
                &&& o.applied_events == runs_events(runs@)
                &&& o.blobs_fetched == runs_blobs(runs@)
                &&& strictly_sorted(o.machines@)
                &&& key_set(o.machines@) == pulled_machines(o.rows@)
            },
        },
{
    let ghost all = runs@;
    let mut rest = runs;
    let mut rows: Vec<LocationRow> = Vec::new();
    let mut i: usize = 0;
    while rest.len() > 0
        invariant
            i + rest.len() == all.len(),
            all.len() == targets.len(),
            rest@ == all.subrange(i as int, all.len() as int),
            forall|k: int| 0 <= k < targets.len() ==> #[trigger] targets@[k] < cfg.locations.len(),
            rows_of_runs(rows@, cfg.locations@, targets@.subrange(0, i as int), all.subrange(0, i as int)),
        decreases rest.len(),
    {
        let run = rest.remove(0);
        let ghost before = rows@;
        let row = location_row(&cfg.locations[targets[i]], run);
        rows.push(row);
        proof {
            let t = targets@.subrange(0, i + 1);
            let a = all.subrange(0, i + 1);
            assert forall|k: int| 0 <= k < rows@.len() implies location_row_of(
                #[trigger] rows@[k],
                cfg.locations@[t[k] as int],
                a[k],
            ) by {
                if k < i {
                    assert(rows@[k] == before[k]);
                    assert(location_row_of(before[k], cfg.locations@[targets@.subrange(0, i as int)[k] as int], all.subrange(0, i as int)[k]));
                }
            }
        }
        i = i + 1;
        assert(rest@ =~= all.subrange(i as int, all.len() as int));
    }
    proof {
        assert(targets@.subrange(0, i as int) =~= targets@);
        assert(all.subrange(0, i as int) =~= all);
        lemma_rows_tally(rows@, cfg.locations@, targets@, all);
    }
    pull_outcome(rows, applied)
}

} // verus!
