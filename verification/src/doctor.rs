//! `maj doctor`: a diagnostic sweep of the environment and, optionally,
//! one catalog. Findings are rows, never errors: every check turns what the
//! host observed into an `Ok`, `Warn` or `Fail` row with the command that
//! fixes it, and the rows come in one documented order.
use vstd::prelude::*;
use crate::describer_config::{DescriberBackend, DescriberConfig, backend_name};
use crate::error::ServiceError;
use crate::index::{Ledger, LedgerRow, flatten_rows};
use crate::notices::Notices;
use crate::text::{cat, decimal, join_strings, joined, push_decimal, string_views};

verus! {

#[derive(Debug, Clone, Copy, PartialEq, Eq, Structural)]
pub enum CheckStatus {
    Pass,
    Warn,
    Fail,
}

/// One diagnostic row: what was checked, its verdict, what was observed,
/// and the fix (absent when `Ok`).
#[derive(Debug)]
pub struct DoctorCheck {
    pub name: String,
    pub status: CheckStatus,
    pub detail: String,
    pub remedy: Option<String>,
}

/// Every row, in order, and the diagnostics collected.
#[derive(Debug)]
pub struct DoctorOutcome {
    pub checks: Vec<DoctorCheck>,
    pub notices: Vec<String>,
}

/// The catalog to check (`None` skips the catalog checks with a `Warn`
/// row), and the head's reading of the describer key variable.
#[derive(Debug)]
pub struct DoctorRequest {
    pub catalog: Option<String>,
    pub describer_env_key: Option<String>,
}

/// The optional remedy's characters.
pub open spec fn opt_chars(o: Option<String>) -> Option<Seq<char>> {
    match o {
        Some(s) => Some(s@),
        None => None,
    }
}

/// `c` is the row `name`/`status`/`detail`/`remedy`.
pub open spec fn row_is(c: DoctorCheck, name: Seq<char>, status: CheckStatus, detail: Seq<char>, remedy: Option<Seq<char>>) -> bool {
    c.name@ == name && c.status == status && c.detail@ == detail && opt_chars(c.remedy) == remedy
}

fn row(name: &str, status: CheckStatus, detail: String, remedy: Option<String>) -> (c: DoctorCheck)
    ensures
        row_is(c, name@, status, detail@, opt_chars(remedy)),
{
    DoctorCheck { name: name.to_owned(), status, detail, remedy }
}

pub open spec fn no_catalog_detail() -> Seq<char> {
    "no catalog selected"@
}

/// What running a binary with its version flag gave: an exit (clean or
/// not) with the first lines of its output, or a failure to start it.
#[derive(Debug)]
pub enum BinaryRun {
    Exited { success: bool, stdout_first_line: Option<String>, stderr_first_line: String, status: String },
    SpawnFailed(String),
}

pub open spec fn brew_remedy(name: Seq<char>) -> Seq<char> {
    "brew install "@ + name
}

/// The row a binary probe produces: `Ok` with its first output line on a
/// clean exit, otherwise `Fail` with a Homebrew remedy naming the binary.
pub open spec fn binary_row(c: DoctorCheck, name: Seq<char>, run: BinaryRun) -> bool {
    match run {
        BinaryRun::Exited { success, stdout_first_line, stderr_first_line, status } => if success {
            row_is(c, name, CheckStatus::Pass, match stdout_first_line {
                Some(l) => l@,
                None => name + " ran with no output"@,
            }, None)
        } else {
            row_is(c, name, CheckStatus::Fail, name + " exited with "@ + status@ + ": "@ + stderr_first_line@, Some(brew_remedy(name)))
        },
        BinaryRun::SpawnFailed(err) => row_is(c, name, CheckStatus::Fail, "could not run "@ + name + ": "@ + err@, Some(brew_remedy(name))),
    }
}

/// The row for running `name`.
pub fn probe_binary(name: &str, run: BinaryRun) -> (c: DoctorCheck)
    ensures
        binary_row(c, name@, run),
{
    match run {
        BinaryRun::Exited { success, stdout_first_line, stderr_first_line, status } => {
            if success {
                let detail = match stdout_first_line {
                    Some(l) => l,
                    None => cat(name, " ran with no output"),
                };
                row(name, CheckStatus::Pass, detail, None)
            } else {
                let mut d = cat(name, " exited with ");
                d.append(status.as_str());
                d.append(": ");
                d.append(stderr_first_line.as_str());
                row(name, CheckStatus::Fail, d, Some(cat("brew install ", name)))
            }
        },
        BinaryRun::SpawnFailed(err) => {
            let mut d = cat("could not run ", name);
            d.append(": ");
            d.append(err.as_str());
            row(name, CheckStatus::Fail, d, Some(cat("brew install ", name)))
        },
    }
}

/// Re-labels a `magick` probe as the `imagemagick` row: the name always,
/// the remedy only on failure.
pub fn as_imagemagick_row(check: DoctorCheck) -> (c: DoctorCheck)
    ensures
        c.name@ == "imagemagick"@,
        c.status == check.status,
        c.detail == check.detail,
        c.status == CheckStatus::Fail ==> opt_chars(c.remedy) == Some("brew install imagemagick"@),
        c.status != CheckStatus::Fail ==> c.remedy == check.remedy,
{
    let DoctorCheck { name: _, status, detail, remedy } = check;
    let remedy = if status == CheckStatus::Fail {
        Some("brew install imagemagick".to_owned())
    } else {
        remedy
    };
    DoctorCheck { name: "imagemagick".to_owned(), status, detail, remedy }
}

/// The imagemagick row: the `magick` binary's probe, reported under the
/// formula's name, with the formula's install command on failure.
pub open spec fn imagemagick_row(c: DoctorCheck, run: BinaryRun) -> bool {
    match run {
        BinaryRun::Exited { success, stdout_first_line, stderr_first_line, status } => if success {
            row_is(c, "imagemagick"@, CheckStatus::Pass, match stdout_first_line {
                Some(l) => l@,
                None => "magick"@ + " ran with no output"@,
            }, None)
        } else {
            row_is(c, "imagemagick"@, CheckStatus::Fail, "magick"@ + " exited with "@ + status@ + ": "@ + stderr_first_line@, Some("brew install imagemagick"@))
        },
        BinaryRun::SpawnFailed(err) => row_is(c, "imagemagick"@, CheckStatus::Fail, "could not run "@ + "magick"@ + ": "@ + err@, Some("brew install imagemagick"@)),
    }
}

/// The imagemagick row from running `magick`.
pub fn check_imagemagick(run: BinaryRun) -> (c: DoctorCheck)
    ensures
        imagemagick_row(c, run),
{
    as_imagemagick_row(probe_binary("magick", run))
}

/// What the host found for one registered model: its cache dir could not
/// be resolved, every file is present, or these files are missing.
#[derive(Debug)]
pub enum ModelProbe {
    DirUnresolved { tag: String, error: String },
    Present { tag: String },
    Missing { tag: String, files: Vec<String> },
}

/// The tags of the models that need fetching, in registry order.
pub open spec fn missing_tags(models: Seq<ModelProbe>) -> Seq<Seq<char>>
    decreases models.len(),
{
    if models.len() == 0 {
        Seq::empty()
    } else {
        let rest = missing_tags(models.drop_last());
        match models.last() {
            ModelProbe::DirUnresolved { tag, .. } => rest.push(tag@),
            ModelProbe::Present { .. } => rest,
            ModelProbe::Missing { tag, .. } => rest.push(tag@),
        }
    }
}

/// The missing files to name, in registry order.
pub open spec fn missing_files(models: Seq<ModelProbe>) -> Seq<Seq<char>>
    decreases models.len(),
{
    if models.len() == 0 {
        Seq::empty()
    } else {
        let rest = missing_files(models.drop_last());
        match models.last() {
            ModelProbe::DirUnresolved { tag, error } => rest.push(tag@ + ": cache dir unresolved ("@ + error@ + ")"@),
            ModelProbe::Present { .. } => rest,
            ModelProbe::Missing { files, .. } => rest + string_views(files@),
        }
    }
}

/// `--only <tag>` for each tag.
pub open spec fn only_flags(tags: Seq<Seq<char>>) -> Seq<Seq<char>> {
    tags.map_values(|t: Seq<char>| "--only "@ + t)
}

/// The models row: `Ok` naming how many are installed, or `Fail` naming the
/// missing files with a `model fetch` of exactly the tags that need it.
pub open spec fn models_row(c: DoctorCheck, models: Seq<ModelProbe>) -> bool {
    if missing_tags(models).len() == 0 && missing_files(models).len() == 0 {
        row_is(c, "models"@, CheckStatus::Pass, decimal(models.len()) + " model(s) installed"@, None)
    } else {
        row_is(
            c,
            "models"@,
            CheckStatus::Fail,
            "missing model file(s): "@ + joined(missing_files(models), ", "@),
            Some("run `maj model fetch "@ + joined(only_flags(missing_tags(models)), " "@) + "`"@),
        )
    }
}

/// The tag of a probed model.
pub open spec fn probe_tag(p: ModelProbe) -> Seq<char> {
    match p {
        ModelProbe::DirUnresolved { tag, .. } => tag@,
        ModelProbe::Present { tag } => tag@,
        ModelProbe::Missing { tag, .. } => tag@,
    }
}

/// `needle` occurs in `hay` as a run of consecutive characters.
pub open spec fn occurs_in(needle: Seq<char>, hay: Seq<char>) -> bool {
    exists|p: int| 0 <= p && p + needle.len() <= hay.len() && #[trigger] hay.subrange(p, p + needle.len()) == needle
}

proof fn lemma_occurs_in_middle(needle: Seq<char>, a: Seq<char>, x: Seq<char>, b: Seq<char>)
    requires
        occurs_in(needle, x),
    ensures
        occurs_in(needle, a + x + b),
{
    let p = choose|p: int| 0 <= p && p + needle.len() <= x.len() && #[trigger] x.subrange(p, p + needle.len()) == needle;
    let q = a.len() + p;
    assert((a + x + b).subrange(q, q + needle.len()) =~= x.subrange(p, p + needle.len()));
}

proof fn lemma_joined_holds_each(parts: Seq<Seq<char>>, sep: Seq<char>, k: int)
    requires
        0 <= k < parts.len(),
    ensures
        occurs_in(parts[k], crate::text::joined(parts, sep)),
    decreases parts.len(),
{
    let j = crate::text::joined(parts, sep);
    if parts.len() == 1 {
        let p: int = 0;
        assert(j.subrange(p, p + parts[0].len()) =~= parts[0]);
    } else if k == parts.len() - 1 {
        let head = crate::text::joined(parts.drop_last(), sep) + sep;
        assert(j == head + parts.last());
        let p: int = head.len() as int;
        assert(j.subrange(p, p + parts[k].len()) =~= parts[k]);
    } else {
        lemma_joined_holds_each(parts.drop_last(), sep, k);
        assert(parts.drop_last()[k] == parts[k]);
        lemma_occurs_in_middle(parts[k], Seq::empty(), crate::text::joined(parts.drop_last(), sep), sep + parts.last());
        assert(Seq::<char>::empty() + crate::text::joined(parts.drop_last(), sep) + (sep + parts.last()) =~= j);
    }
}

proof fn lemma_missing_tags(models: Seq<ModelProbe>)
    ensures
        (forall|i: int| 0 <= i < models.len() ==> #[trigger] models[i] is Present) ==> missing_tags(models).len() == 0
            && missing_files(models).len() == 0,
        forall|i: int|
            0 <= i < models.len() && !(#[trigger] models[i] is Present) ==> exists|k: int|
                0 <= k < missing_tags(models).len() && missing_tags(models)[k] == probe_tag(models[i]),
    decreases models.len(),
{
    if models.len() > 0 {
        let pre = models.drop_last();
        lemma_missing_tags(pre);
        if forall|i: int| 0 <= i < models.len() ==> #[trigger] models[i] is Present {
            assert forall|i: int| 0 <= i < pre.len() implies #[trigger] pre[i] is Present by {
                assert(models[i] is Present);
            }
            assert(models.last() is Present);
        }
        assert forall|i: int|
            0 <= i < models.len() && !(#[trigger] models[i] is Present) implies exists|k: int|
                0 <= k < missing_tags(models).len() && missing_tags(models)[k] == probe_tag(models[i]) by {
            let tags = missing_tags(models);
            if i < pre.len() {
                assert(pre[i] == models[i]);
                let k = choose|k: int| 0 <= k < missing_tags(pre).len() && missing_tags(pre)[k] == probe_tag(pre[i]);
                assert(tags[k] == missing_tags(pre)[k]);
            } else {
                assert(tags[tags.len() - 1] == probe_tag(models[i]));
            }
        }
    }
}

/// The models row passes exactly when every registered model is present;
/// otherwise it fails, and its remedy fetches each model that is missing
/// or whose cache dir could not be resolved, by that model's own tag.
pub proof fn models_row_fails_for_each_missing_model(c: DoctorCheck, models: Seq<ModelProbe>)
    requires
        models_row(c, models),
    ensures
        c.name@ == "models"@,
        (c.status == CheckStatus::Pass) <==> (forall|i: int| 0 <= i < models.len() ==> #[trigger] models[i] is Present),
        c.status == CheckStatus::Pass || c.status == CheckStatus::Fail,
        forall|i: int|
            0 <= i < models.len() && !(#[trigger] models[i] is Present) ==> (c.remedy matches Some(r) && occurs_in(
                "--only "@ + probe_tag(models[i]),
                r@,
            )),
{
    lemma_missing_tags(models);
    assert forall|i: int| 0 <= i < models.len() && !(#[trigger] models[i] is Present) implies (c.remedy matches Some(r)
        && occurs_in("--only "@ + probe_tag(models[i]), r@)) by {
        let tags = missing_tags(models);
        let k = choose|k: int| 0 <= k < tags.len() && tags[k] == probe_tag(models[i]);
        let flags = only_flags(tags);
        assert(flags[k] == "--only "@ + probe_tag(models[i]));
        lemma_joined_holds_each(flags, " "@, k);
        lemma_occurs_in_middle(flags[k], "run `maj model fetch "@, crate::text::joined(flags, " "@), "`"@);
    }
}

/// The models row from what the host found for each registered model.
pub fn check_models(models: &Vec<ModelProbe>) -> (c: DoctorCheck)
    ensures
        models_row(c, models@),
{
    let mut tags: Vec<String> = Vec::new();
    let mut files: Vec<String> = Vec::new();
    let mut i: usize = 0;
    while i < models.len()
        invariant
            i <= models.len(),
            string_views(tags@) == missing_tags(models@.subrange(0, i as int)),
            string_views(files@) == missing_files(models@.subrange(0, i as int)),
        decreases models.len() - i,
    {
        let ghost pre = models@.subrange(0, i as int);
        let ghost next = models@.subrange(0, i + 1);
        proof {
            assert(next.drop_last() =~= pre);
            assert(next.last() == models@[i as int]);
        }
        match &models[i] {
            ModelProbe::DirUnresolved { tag, error } => {
                tags.push(tag.clone());
                let mut f = cat(tag.as_str(), ": cache dir unresolved (");
                f.append(error.as_str());
                f.append(")");
                files.push(f);
            },
            ModelProbe::Present { .. } => {},
            ModelProbe::Missing { tag, files: missing } => {
                tags.push(tag.clone());
                append_strings(&mut files, missing);
            },
        }
        i = i + 1;
        assert(string_views(tags@) =~= missing_tags(next));
        assert(string_views(files@) =~= missing_files(next));
    }
    assert(models@.subrange(0, models.len() as int) =~= models@);
    let mut flags: Vec<String> = Vec::new();
    let mut j: usize = 0;
    while j < tags.len()
        invariant
            j <= tags.len(),
            flags.len() == j,
            forall|k: int| 0 <= k < j ==> (#[trigger] flags@[k])@ == "--only "@ + tags@[k]@,
        decreases tags.len() - j,
    {
        flags.push(cat("--only ", tags[j].as_str()));
        j = j + 1;
    }
    assert(string_views(flags@) =~= only_flags(string_views(tags@)));
    if tags.len() == 0 && files.len() == 0 {
        let mut d = String::new();
        push_decimal(&mut d, models.len() as u64);
        d.append(" model(s) installed");
        return row("models", CheckStatus::Pass, d, None);
    }
    let d = cat("missing model file(s): ", join_strings(&files, ", ").as_str());
    let mut r = cat("run `maj model fetch ", join_strings(&flags, " ").as_str());
    r.append("`");
    row("models", CheckStatus::Fail, d, Some(r))
}

/// What the host found for the state dir: unresolvable, writable, not
/// writable, or writable but its probe file could not be deleted.
#[derive(Debug)]
pub enum StateDirProbe {
    Unresolved(String),
    Writable(String),
    NotWritable { dir: String, error: String },
    NotDeletable { dir: String, probe: String, error: String },
}

pub open spec fn state_dir_row(c: DoctorCheck, catalog: Option<Seq<char>>, probe: StateDirProbe) -> bool {
    match catalog {
        None => row_is(c, "state_dir"@, CheckStatus::Warn, no_catalog_detail(), None),
        Some(cat) => match probe {
            StateDirProbe::Unresolved(e) => row_is(c, "state_dir"@, CheckStatus::Fail, e@, Some("check the state dir for "@ + cat)),
            StateDirProbe::Writable(d) => row_is(c, "state_dir"@, CheckStatus::Pass, "writable at "@ + d@, None),
            StateDirProbe::NotWritable { dir, error } => row_is(c, "state_dir"@, CheckStatus::Fail, dir@ + " not writable: "@ + error@, Some("check permissions on "@ + dir@)),
            StateDirProbe::NotDeletable { dir, probe, error } => row_is(c, "state_dir"@, CheckStatus::Fail, "wrote "@ + probe@ + " but could not delete it: "@ + error@, Some("check permissions on "@ + dir@)),
        },
    }
}

/// The state-dir row: it exists and is writable.
pub fn check_state_dir(catalog: Option<&str>, probe: StateDirProbe) -> (c: DoctorCheck)
    ensures
        state_dir_row(c, match catalog { Some(s) => Some(s@), None => None }, probe),
{
    let catalog = match catalog {
        None => {
            return row("state_dir", CheckStatus::Warn, "no catalog selected".to_owned(), None);
        },
        Some(c) => c,
    };
    match probe {
        StateDirProbe::Unresolved(e) => row("state_dir", CheckStatus::Fail, e, Some(cat("check the state dir for ", catalog))),
        StateDirProbe::Writable(d) => row("state_dir", CheckStatus::Pass, cat("writable at ", d.as_str()), None),
        StateDirProbe::NotWritable { dir, error } => {
            let mut d = cat(dir.as_str(), " not writable: ");
            d.append(error.as_str());
            row("state_dir", CheckStatus::Fail, d, Some(cat("check permissions on ", dir.as_str())))
        },
        StateDirProbe::NotDeletable { dir, probe, error } => {
            let mut d = cat("wrote ", probe.as_str());
            d.append(" but could not delete it: ");
            d.append(error.as_str());
            row("state_dir", CheckStatus::Fail, d, Some(cat("check permissions on ", dir.as_str())))
        },
    }
}

/// What opening the catalog gave: it would not open, it opened but would
/// not sync, or it opened and synced.
#[derive(Debug)]
pub enum CatalogProbe {
    OpenFailed(String),
    SyncFailed(String),
    Synced,
}

pub open spec fn catalog_row(c: DoctorCheck, catalog: Option<Seq<char>>, probe: CatalogProbe) -> bool {
    match catalog {
        None => row_is(c, "catalog"@, CheckStatus::Warn, no_catalog_detail(), Some("pass --catalog or run `maj catalog init`"@)),
        Some(cat) => match probe {
            CatalogProbe::OpenFailed(e) => row_is(c, "catalog"@, CheckStatus::Fail, e@, Some("run `maj catalog init`"@)),
            CatalogProbe::SyncFailed(e) => row_is(c, "catalog"@, CheckStatus::Fail, e@, Some("check catalog state at "@ + cat)),
            CatalogProbe::Synced => row_is(c, "catalog"@, CheckStatus::Pass, "opens and syncs at "@ + cat, None),
        },
    }
}

/// The catalog row: the catalog opens and its sqlite view syncs.
pub fn check_catalog(catalog: Option<&str>, probe: CatalogProbe) -> (c: DoctorCheck)
    ensures
        catalog_row(c, match catalog { Some(s) => Some(s@), None => None }, probe),
{
    let catalog = match catalog {
        None => {
            return row(
                "catalog",
                CheckStatus::Warn,
                "no catalog selected".to_owned(),
                Some("pass --catalog or run `maj catalog init`".to_owned()),
            );
        },
        Some(c) => c,
    };
    match probe {
        CatalogProbe::OpenFailed(e) => row("catalog", CheckStatus::Fail, e, Some("run `maj catalog init`".to_owned())),
        CatalogProbe::SyncFailed(e) => row("catalog", CheckStatus::Fail, e, Some(cat("check catalog state at ", catalog))),
        CatalogProbe::Synced => row("catalog", CheckStatus::Pass, cat("opens and syncs at ", catalog), None),
    }
}

/// What scanning for interrupted-write orphans found: the state dir to
/// scan could not be resolved, or these orphans under the blob root and
/// the runs dir.
#[derive(Debug)]
pub enum ResidueProbe {
    Unresolved(String),
    Scanned { blob_root: String, runs_dir: String, orphans: Vec<String> },
}

/// An interrupted blob write: the blob store writes through
/// `.tmp-<pid>-<seq>` names renamed into place, so a file still under such
/// a name was stranded by a crash.
pub fn is_blob_orphan(file_name: &str) -> (r: bool)
    ensures
        r == crate::text::is_prefix(".tmp-"@, file_name@),
{
    crate::text::starts_with(file_name, ".tmp-")
}

/// An interrupted journal move: legacy journal migration writes
/// `<name>.partial` before renaming it into the runs directory.
pub fn is_run_orphan(file_name: &str) -> (r: bool)
    ensures
        r == crate::text::is_suffix(".partial"@, file_name@),
{
    crate::text::ends_with(file_name, ".partial")
}

/// At most the first three of `s`.
pub open spec fn first_three(s: Seq<Seq<char>>) -> Seq<Seq<char>> {
    if s.len() > 3 {
        s.subrange(0, 3)
    } else {
        s
    }
}

pub open spec fn residue_remedy() -> Seq<char> {
    "delete the leftover temp files (safe while nothing is indexing or syncing)"@
}

pub open spec fn residue_row(c: DoctorCheck, catalog: Option<Seq<char>>, probe: ResidueProbe) -> bool {
    match catalog {
        None => row_is(c, "blob_residue"@, CheckStatus::Warn, no_catalog_detail(), None),
        Some(_) => match probe {
            ResidueProbe::Unresolved(e) => row_is(c, "blob_residue"@, CheckStatus::Warn, "could not resolve the state dir to scan: "@ + e@, None),
            ResidueProbe::Scanned { blob_root, runs_dir, orphans } => if orphans@.len() == 0 {
                row_is(c, "blob_residue"@, CheckStatus::Pass, "no orphaned temp files under "@ + blob_root@ + " or "@ + runs_dir@, None)
            } else {
                row_is(
                    c,
                    "blob_residue"@,
                    CheckStatus::Warn,
                    decimal(orphans@.len()) + " orphaned temp file(s), e.g. "@ + joined(first_three(string_views(orphans@)), ", "@),
                    Some(residue_remedy()),
                )
            },
        },
    }
}

fn append_strings(dst: &mut Vec<String>, src: &Vec<String>)
    ensures
        string_views(final(dst)@) == string_views(old(dst)@) + string_views(src@),
{
    let ghost start = dst@;
    let mut k: usize = 0;
    while k < src.len()
        invariant
            k <= src.len(),
            dst.len() == start.len() + k,
            forall|q: int| 0 <= q < start.len() ==> (#[trigger] dst@[q]) == start[q],
            forall|q: int| 0 <= q < k ==> (#[trigger] dst@[start.len() + q])@ == src@[q]@,
        decreases src.len() - k,
    {
        dst.push(src[k].clone());
        k = k + 1;
    }
    assert forall|q: int| 0 <= q < dst@.len() implies #[trigger] string_views(dst@)[q] == (string_views(start) + string_views(src@))[q] by {
        if q >= start.len() {
            assert(dst@[start.len() + (q - start.len())]@ == src@[q - start.len()]@);
        }
    }
    assert(string_views(dst@) =~= string_views(start) + string_views(src@));
}

fn first_three_strings(v: &Vec<String>) -> (out: Vec<String>)
    ensures
        string_views(out@) == first_three(string_views(v@)),
{
    let mut out: Vec<String> = Vec::new();
    let mut i: usize = 0;
    while i < v.len() && i < 3
        invariant
            i <= v.len(),
            i <= 3,
            out.len() == i,
            forall|k: int| 0 <= k < i ==> (#[trigger] out@[k])@ == v@[k]@,
        decreases 3 - i,
    {
        out.push(v[i].clone());
        i = i + 1;
    }
    assert(string_views(out@) =~= first_three(string_views(v@)));
    out
}

/// The residue row: leftover temp files an interrupted write stranded.
pub fn check_blob_residue(catalog: Option<&str>, probe: ResidueProbe) -> (c: DoctorCheck)
    ensures
        residue_row(c, match catalog { Some(s) => Some(s@), None => None }, probe),
{
    if catalog.is_none() {
        return row("blob_residue", CheckStatus::Warn, "no catalog selected".to_owned(), None);
    }
    match probe {
        ResidueProbe::Unresolved(e) => row("blob_residue", CheckStatus::Warn, cat("could not resolve the state dir to scan: ", e.as_str()), None),
        ResidueProbe::Scanned { blob_root, runs_dir, orphans } => {
            if orphans.len() == 0 {
                let mut d = cat("no orphaned temp files under ", blob_root.as_str());
                d.append(" or ");
                d.append(runs_dir.as_str());
                return row("blob_residue", CheckStatus::Pass, d, None);
            }
            let mut d = String::new();
            push_decimal(&mut d, orphans.len() as u64);
            d.append(" orphaned temp file(s), e.g. ");
            let samples = first_three_strings(&orphans);
            d.append(join_strings(&samples, ", ").as_str());
            row(
                "blob_residue",
                CheckStatus::Warn,
                d,
                Some("delete the leftover temp files (safe while nothing is indexing or syncing)".to_owned()),
            )
        },
    }
}

pub open spec fn retry_remedy() -> Seq<char> {
    "maj index run --retry-failed (or Retry failed items in Settings → Always-on)"@
}

/// The paths of `rows`, in order.
pub open spec fn row_paths(rows: Seq<LedgerRow>) -> Seq<Seq<char>> {
    rows.map_values(|r: LedgerRow| r.path@)
}

pub open spec fn failed_items_row(c: DoctorCheck, catalog: Option<Seq<char>>, rows: Result<Seq<LedgerRow>, Seq<char>>) -> bool {
    match catalog {
        None => row_is(c, "failed_items"@, CheckStatus::Warn, no_catalog_detail(), None),
        Some(_) => match rows {
            Err(e) => row_is(c, "failed_items"@, CheckStatus::Fail, e, None),
            Ok(rows) => if rows.len() == 0 {
                row_is(c, "failed_items"@, CheckStatus::Pass, "no known failures"@, None)
            } else {
                row_is(
                    c,
                    "failed_items"@,
                    CheckStatus::Warn,
                    decimal(rows.len()) + " item(s) skipped after failing permanently: "@ + joined(first_three(row_paths(rows)), ", "@),
                    Some(retry_remedy()),
                )
            },
        },
    }
}

/// The failure-ledger row: how many items the catalog holds back, across
/// every kind, naming the first three; a ledger that could not be read is
/// a `Fail` with its error and no invented remedy.
pub fn check_failed_items(catalog: Option<&str>, ledger: Result<Ledger, String>) -> (c: DoctorCheck)
    ensures
        failed_items_row(c, match catalog { Some(s) => Some(s@), None => None }, match ledger {
            Ok(l) => Ok(flatten_rows(l.kind_order(), l@)),
            Err(e) => Err(e@),
        }),
{
    if catalog.is_none() {
        return row("failed_items", CheckStatus::Warn, "no catalog selected".to_owned(), None);
    }
    let ledger = match ledger {
        Err(e) => {
            return row("failed_items", CheckStatus::Fail, e, None);
        },
        Ok(l) => l,
    };
    let rows = ledger.all_rows();
    if rows.len() == 0 {
        return row("failed_items", CheckStatus::Pass, "no known failures".to_owned(), None);
    }
    let mut paths: Vec<String> = Vec::new();
    let mut i: usize = 0;
    while i < rows.len() && i < 3
        invariant
            i <= rows.len(),
            i <= 3,
            paths.len() == i,
            forall|k: int| 0 <= k < i ==> (#[trigger] paths@[k])@ == rows@[k].path@,
        decreases 3 - i,
    {
        paths.push(rows[i].path.clone());
        i = i + 1;
    }
    assert(string_views(paths@) =~= first_three(row_paths(rows@)));
    let mut d = String::new();
    push_decimal(&mut d, rows.len() as u64);
    d.append(" item(s) skipped after failing permanently: ");
    d.append(join_strings(&paths, ", ").as_str());
    row(
        "failed_items",
        CheckStatus::Warn,
        d,
        Some("maj index run --retry-failed (or Retry failed items in Settings → Always-on)".to_owned()),
    )
}

pub open spec fn key_missing_reason() -> Seq<char> {
    "OpenRouter needs an API key — save one in Settings → Captions, or set it with `maj describer set --api-key` or MAJ_OPENROUTER_KEY"@
}

pub open spec fn describer_row(c: DoctorCheck, catalog: Option<Seq<char>>, config: Result<Option<DescriberConfig>, String>, env_key: Option<String>) -> bool {
    match catalog {
        None => row_is(c, "describer"@, CheckStatus::Warn, no_catalog_detail(), None),
        Some(_) => match config {
            Err(e) => row_is(c, "describer"@, CheckStatus::Warn, "describer config unreadable: "@ + e@, Some("fix or remove describer.toml (`maj describer set …` rewrites it)"@)),
            Ok(None) => row_is(c, "describer"@, CheckStatus::Pass, "no describer configured — captions off"@, None),
            Ok(Some(cfg)) => {
                let head = backend_name(cfg.backend) + " · "@ + cfg.model@;
                if cfg.backend != DescriberBackend::OpenRouter {
                    row_is(c, "describer"@, CheckStatus::Pass, head, None)
                } else if env_key is Some || cfg.api_key is Some {
                    row_is(c, "describer"@, CheckStatus::Pass, head + " · key configured"@, None)
                } else {
                    row_is(c, "describer"@, CheckStatus::Fail, head + " · no API key from describer.toml or MAJ_OPENROUTER_KEY"@, Some(key_missing_reason()))
                }
            },
        },
    }
}

/// The describer row: none configured is fine (captions are optional); a
/// local backend needs nothing more; OpenRouter needs a key from the
/// environment or the file. An unreadable config is a `Warn`.
pub fn check_describer(catalog: Option<&str>, config: Result<Option<DescriberConfig>, String>, env_key: Option<String>) -> (c: DoctorCheck)
    ensures
        describer_row(c, match catalog { Some(s) => Some(s@), None => None }, config, env_key),
{
    if catalog.is_none() {
        return row("describer", CheckStatus::Warn, "no catalog selected".to_owned(), None);
    }
    match config {
        Err(e) => row(
            "describer",
            CheckStatus::Warn,
            cat("describer config unreadable: ", e.as_str()),
            Some("fix or remove describer.toml (`maj describer set …` rewrites it)".to_owned()),
        ),
        Ok(None) => row("describer", CheckStatus::Pass, "no describer configured — captions off".to_owned(), None),
        Ok(Some(cfg)) => {
            let mut head = cat(cfg.backend.as_str(), " · ");
            head.append(cfg.model.as_str());
            match cfg.backend {
                DescriberBackend::Ollama | DescriberBackend::LmStudio => row("describer", CheckStatus::Pass, head, None),
                DescriberBackend::OpenRouter => {
                    if env_key.is_some() || cfg.api_key.is_some() {
                        head.append(" · key configured");
                        row("describer", CheckStatus::Pass, head, None)
                    } else {
                        head.append(" · no API key from describer.toml or MAJ_OPENROUTER_KEY");
                        row(
                            "describer",
                            CheckStatus::Fail,
                            head,
                            Some("OpenRouter needs an API key — save one in Settings → Captions, or set it with `maj describer set --api-key` or MAJ_OPENROUTER_KEY".to_owned()),
                        )
                    }
                },
            }
        },
    }
}

pub open spec fn platform_row(c: DoctorCheck, absent: Seq<Seq<char>>) -> bool {
    if absent.len() == 0 {
        row_is(c, "platform"@, CheckStatus::Pass, "macOS — OCR and PDF text extraction available"@, None)
    } else {
        row_is(c, "platform"@, CheckStatus::Warn, joined(absent, ", "@) + " — expected on this platform"@, None)
    }
}

/// The platform row: `Ok` when every Apple capability is compiled in, else
/// a `Warn` naming the absent ones (expected off macOS).
pub fn check_platform(absent: &Vec<String>) -> (c: DoctorCheck)
    ensures
        platform_row(c, string_views(absent@)),
{
    if absent.len() == 0 {
        return row("platform", CheckStatus::Pass, "macOS — OCR and PDF text extraction available".to_owned(), None);
    }
    let d = cat(join_strings(absent, ", ").as_str(), " — expected on this platform");
    row("platform", CheckStatus::Warn, d, None)
}

/// Everything the host observed for one doctor run.
#[derive(Debug)]
pub struct DoctorProbes {
    pub ffmpeg: BinaryRun,
    pub magick: BinaryRun,
    pub models: Vec<ModelProbe>,
    pub state_dir: StateDirProbe,
    pub catalog: CatalogProbe,
    pub residue: ResidueProbe,
    pub ledger: Result<Ledger, String>,
    pub describer: Result<Option<DescriberConfig>, String>,
    pub platform_absent: Vec<String>,
}

/// The names of the rows, in the order they are emitted.
pub open spec fn doctor_order() -> Seq<Seq<char>> {
    seq![
        "ffmpeg"@,
        "imagemagick"@,
        "models"@,
        "state_dir"@,
        "catalog"@,
        "blob_residue"@,
        "failed_items"@,
        "describer"@,
        "platform"@,
    ]
}

/// `maj doctor`: every check's row, in the documented order, and the
/// diagnostics the sink held. Never fails: findings are rows.
pub fn doctor(req: &DoctorRequest, probes: DoctorProbes, notices: &mut Notices) -> (r: Result<DoctorOutcome, ServiceError>)
    ensures
        r matches Ok(o) && {
            let catalog = match req.catalog { Some(s) => Some(s@), None => None };
            &&& o.checks.len() == 9
            &&& forall|i: int| 0 <= i < 9 ==> (#[trigger] o.checks@[i]).name@ == doctor_order()[i]
            &&& binary_row(o.checks@[0], "ffmpeg"@, probes.ffmpeg)
            &&& imagemagick_row(o.checks@[1], probes.magick)
            &&& models_row(o.checks@[2], probes.models@)
            &&& state_dir_row(o.checks@[3], catalog, probes.state_dir)
            &&& catalog_row(o.checks@[4], catalog, probes.catalog)
            &&& residue_row(o.checks@[5], catalog, probes.residue)
            &&& failed_items_row(o.checks@[6], catalog, match probes.ledger {
                Ok(l) => Ok(flatten_rows(l.kind_order(), l@)),
                Err(e) => Err(e@),
            })
            &&& describer_row(o.checks@[7], catalog, probes.describer, req.describer_env_key)
            &&& platform_row(o.checks@[8], string_views(probes.platform_absent@))
            &&& o.notices@ == old(notices)@
        },
        final(notices)@.len() == 0,
{
    let DoctorProbes { ffmpeg, magick, models, state_dir, catalog: catalog_probe, residue, ledger, describer, platform_absent } = probes;
    let catalog: Option<&str> = match &req.catalog {
        Some(c) => Some(c.as_str()),
        None => None,
    };
    let env_key = match &req.describer_env_key {
        Some(k) => Some(k.clone()),
        None => None,
    };
    let mut checks: Vec<DoctorCheck> = Vec::new();
    checks.push(probe_binary("ffmpeg", ffmpeg));
    checks.push(check_imagemagick(magick));
    checks.push(check_models(&models));
    checks.push(check_state_dir(catalog, state_dir));
    checks.push(check_catalog(catalog, catalog_probe));
    checks.push(check_blob_residue(catalog, residue));
    checks.push(check_failed_items(catalog, ledger));
    checks.push(check_describer(catalog, describer, env_key));
    checks.push(check_platform(&platform_absent));
    proof {
        reveal_strlit("ffmpeg");
    }
    assert(checks@[0].name@ == doctor_order()[0]);
    Ok(DoctorOutcome { checks, notices: notices.drain() })
}

} // verus!
