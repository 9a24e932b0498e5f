//! The `contribution.json` manifest at the root of an inbox contribution,
//! and the two read-only gates run before any of its bytes are touched:
//! [`validate_manifest`], the structural and trust-boundary check of a
//! parsed manifest, and [`check_files`], the presence/size check of its
//! listed files together with the report of files it does not list.
//!
//! Names are compared as exact character sequences, with no Unicode
//! normalization and no case folding.
use vstd::prelude::*;
use crate::text::{
    cat, chars_of, decimal, insert_key, key_set, push_decimal, str_eq, strictly_sorted, string_views,
};

verus! {

/// The manifest's file name inside a contribution folder.
pub const MANIFEST_NAME: &'static str = "contribution.json";

/// The one manifest version this library reads.
pub const SUPPORTED_VERSION: u32 = 1;

/// One listed file: its `/`-separated path relative to the contribution
/// folder, the xxHash64 of its bytes (seed 0) as 16 lowercase hex digits,
/// and its size in bytes.
#[derive(Debug)]
pub struct ManifestFile {
    pub name: String,
    pub xxh64: String,
    pub size: u64,
}

/// `contribution.json` as parsed.
#[derive(Debug)]
pub struct ContributionManifest {
    pub version: u32,
    pub contributor: String,
    pub para_target: Option<String>,
    pub source: Option<String>,
    /// Free-form capture context, carried as is.
    pub note: Option<String>,
    pub files: Vec<ManifestFile>,
}

/// The identity fields a contributor controls.
#[derive(Debug, Clone, Copy, PartialEq, Eq)]
pub enum IdentityField {
    Contributor,
    Source,
    ParaTarget,
}

/// Why a manifest is refused as a whole.
#[derive(Debug)]
pub enum ManifestError {
    UnsupportedVersion { version: u32 },
    EmptyField { field: IdentityField },
    EscapingField { field: IdentityField, value: String },
    ParaTargetSlashes { target: String },
    EmptyFileName,
    DirectoryEntry { name: String },
    EscapingEntry { name: String },
    MalformedHash { name: String, hash: String },
    DuplicateEntry { name: String },
}

/// `s` holds a `..` path component starting at `i`.
pub open spec fn is_parent_segment_at(s: Seq<char>, i: int) -> bool {
    &&& 0 <= i && i + 2 <= s.len()
    &&& s[i] == '.' && s[i + 1] == '.'
    &&& (i == 0 || s[i - 1] == '/')
    &&& (i + 2 == s.len() || s[i + 2] == '/')
}

/// Joined onto a base folder, `s` could resolve outside it: it is absolute
/// or has a `..` component.
pub open spec fn leaves_folder(s: Seq<char>) -> bool {
    ||| (s.len() > 0 && s[0] == '/')
    ||| exists|i: int| is_parent_segment_at(s, i)
}

pub open spec fn is_lower_hex(c: char) -> bool {
    ('0' <= c && c <= '9') || ('a' <= c && c <= 'f')
}

/// Exactly 16 lowercase hex digits.
pub open spec fn lower_hex16_text(s: Seq<char>) -> bool {
    s.len() == 16 && forall|i: int| 0 <= i < 16 ==> is_lower_hex(#[trigger] s[i])
}

/// How many times `c` occurs in `s`.
pub open spec fn count_char(s: Seq<char>, c: char) -> nat
    decreases s.len(),
{
    if s.len() == 0 {
        0
    } else {
        count_char(s.drop_last(), c) + if s.last() == c { 1nat } else { 0nat }
    }
}

/// The refusal an identity field earns, if any: empty, or escaping.
pub open spec fn identity_problem(field: IdentityField, value: String) -> Option<ManifestError> {
    if value@.len() == 0 {
        Some(ManifestError::EmptyField { field })
    } else if leaves_folder(value@) {
        Some(ManifestError::EscapingField { field, value })
    } else {
        None
    }
}

/// Whether an entry before `i` carries the same name as entry `i`.
pub open spec fn listed_before(files: Seq<ManifestFile>, i: int) -> bool {
    exists|j: int| 0 <= j < i && #[trigger] files[j].name@ == files[i].name@
}

/// The refusal entry `i` earns, given that every entry before it passed.
pub open spec fn entry_problem(files: Seq<ManifestFile>, i: int) -> Option<ManifestError> {
    let f = files[i];
    if f.name@.len() == 0 {
        Some(ManifestError::EmptyFileName)
    } else if f.name@.last() == '/' {
        Some(ManifestError::DirectoryEntry { name: f.name })
    } else if leaves_folder(f.name@) {
        Some(ManifestError::EscapingEntry { name: f.name })
    } else if !lower_hex16_text(f.xxh64@) {
        Some(ManifestError::MalformedHash { name: f.name, hash: f.xxh64 })
    } else if listed_before(files, i) {
        Some(ManifestError::DuplicateEntry { name: f.name })
    } else {
        None
    }
}

/// The first refusal among the first `n` entries.
pub open spec fn files_problem(files: Seq<ManifestFile>, n: nat) -> Option<ManifestError>
    decreases n,
{
    if n == 0 {
        None
    } else {
        match files_problem(files, (n - 1) as nat) {
            Some(p) => Some(p),
            None => entry_problem(files, n - 1),
        }
    }
}

/// The first refusal a manifest earns, checked in order: its version, its
/// contributor, its source, its PARA target (which may hold at most one
/// `/`), then each file entry in turn.
pub open spec fn first_problem(m: ContributionManifest) -> Option<ManifestError> {
    if m.version != SUPPORTED_VERSION {
        Some(ManifestError::UnsupportedVersion { version: m.version })
    } else if identity_problem(IdentityField::Contributor, m.contributor) is Some {
        identity_problem(IdentityField::Contributor, m.contributor)
    } else if m.source matches Some(s) && identity_problem(IdentityField::Source, s) is Some {
        identity_problem(IdentityField::Source, m.source->0)
    } else if m.para_target matches Some(t) && identity_problem(IdentityField::ParaTarget, t) is Some {
        identity_problem(IdentityField::ParaTarget, m.para_target->0)
    } else if m.para_target matches Some(t) && count_char(t@, '/') > 1 {
        Some(ManifestError::ParaTargetSlashes { target: m.para_target->0 })
    } else {
        files_problem(m.files@, m.files@.len())
    }
}

/// Two refusals are the same: the same variant with equal contents.
pub open spec fn same_problem(a: ManifestError, b: ManifestError) -> bool {
    match (a, b) {
        (ManifestError::UnsupportedVersion { version: x }, ManifestError::UnsupportedVersion { version: y }) => x == y,
        (ManifestError::EmptyField { field: x }, ManifestError::EmptyField { field: y }) => x == y,
        (
            ManifestError::EscapingField { field: x, value: v },
            ManifestError::EscapingField { field: y, value: w },
        ) => x == y && v@ == w@,
        (ManifestError::ParaTargetSlashes { target: x }, ManifestError::ParaTargetSlashes { target: y }) => x@ == y@,
        (ManifestError::EmptyFileName, ManifestError::EmptyFileName) => true,
        (ManifestError::DirectoryEntry { name: x }, ManifestError::DirectoryEntry { name: y }) => x@ == y@,
        (ManifestError::EscapingEntry { name: x }, ManifestError::EscapingEntry { name: y }) => x@ == y@,
        (
            ManifestError::MalformedHash { name: x, hash: h },
            ManifestError::MalformedHash { name: y, hash: g },
        ) => x@ == y@ && h@ == g@,
        (ManifestError::DuplicateEntry { name: x }, ManifestError::DuplicateEntry { name: y }) => x@ == y@,
        _ => false,
    }
}

/// Whether `s` could resolve outside the folder it is joined onto.
pub fn escapes_folder(s: &str) -> (r: bool)
    ensures
        r == leaves_folder(s@),
{
    let cs = chars_of(s);
    let n = cs.len();
    if n > 0 && cs[0] == '/' {
        return true;
    }
    let mut i: usize = 0;
    while n >= 2 && i <= n - 2
        invariant
            cs@ == s@,
            n == cs.len(),
            forall|k: int| 0 <= k < i ==> !is_parent_segment_at(s@, k),
        decreases n - i,
    {
        if cs[i] == '.' && cs[i + 1] == '.' && (i == 0 || cs[i - 1] == '/') && (i + 2 == n || cs[i + 2]
            == '/') {
            assert(is_parent_segment_at(s@, i as int));
            return true;
        }
        i = i + 1;
    }
    assert forall|k: int| #![auto] !is_parent_segment_at(s@, k) by {
        if 0 <= k && k < i {
        }
    }
    false
}

/// Whether `s` is exactly 16 lowercase hex digits.
pub fn is_lower_hex16(s: &str) -> (r: bool)
    ensures
        r == lower_hex16_text(s@),
{
    let cs = chars_of(s);
    if cs.len() != 16 {
        return false;
    }
    let mut i: usize = 0;
    while i < 16
        invariant
            cs@ == s@,
            cs.len() == 16,
            forall|k: int| 0 <= k < i ==> is_lower_hex(#[trigger] s@[k]),
        decreases 16 - i,
    {
        let c = cs[i];
        if !(('0' <= c && c <= '9') || ('a' <= c && c <= 'f')) {
            return false;
        }
        i = i + 1;
    }
    true
}

/// How many times `c` occurs in `s`.
pub fn occurrences(s: &str, c: char) -> (n: usize)
    ensures
        n == count_char(s@, c),
{
    let cs = chars_of(s);
    let mut n: usize = 0;
    let mut i: usize = 0;
    while i < cs.len()
        invariant
            cs@ == s@,
            i <= cs.len(),
            n == count_char(s@.subrange(0, i as int), c),
            n <= i,
        decreases cs.len() - i,
    {
        assert(s@.subrange(0, i + 1).drop_last() =~= s@.subrange(0, i as int));
        if cs[i] == c {
            n = n + 1;
        }
        i = i + 1;
    }
    assert(s@.subrange(0, cs.len() as int) =~= s@);
    n
}

fn validate_identity_field(field: IdentityField, value: &String) -> (r: Result<(), ManifestError>)
    ensures
        match (r, identity_problem(field, *value)) {
            (Ok(()), None) => true,
            (Err(e), Some(p)) => same_problem(e, p),
            _ => false,
        },
{
    if value.unicode_len() == 0 {
        return Err(ManifestError::EmptyField { field });
    }
    if escapes_folder(value.as_str()) {
        return Err(ManifestError::EscapingField { field, value: value.clone() });
    }
    Ok(())
}

/// Whether some entry before `i` is named as entry `i` is.
fn named_before(files: &Vec<ManifestFile>, i: usize) -> (r: bool)
    requires
        i < files.len(),
    ensures
        r == listed_before(files@, i as int),
{
    let mut j: usize = 0;
    while j < i
        invariant
            i < files.len(),
            j <= i,
            forall|k: int| 0 <= k < j ==> files@[k].name@ != files@[i as int].name@,
        decreases i - j,
    {
        if str_eq(files[j].name.as_str(), files[i].name.as_str()) {
            return true;
        }
        j = j + 1;
    }
    false
}

fn check_entry(files: &Vec<ManifestFile>, i: usize) -> (r: Result<(), ManifestError>)
    requires
        i < files.len(),
    ensures
        match (r, entry_problem(files@, i as int)) {
            (Ok(()), None) => true,
            (Err(e), Some(p)) => same_problem(e, p),
            _ => false,
        },
{
    let f = &files[i];
    let n = f.name.unicode_len();
    if n == 0 {
        return Err(ManifestError::EmptyFileName);
    }
    if f.name.get_char(n - 1) == '/' {
        return Err(ManifestError::DirectoryEntry { name: f.name.clone() });
    }
    if escapes_folder(f.name.as_str()) {
        return Err(ManifestError::EscapingEntry { name: f.name.clone() });
    }
    if !is_lower_hex16(f.xxh64.as_str()) {
        return Err(ManifestError::MalformedHash { name: f.name.clone(), hash: f.xxh64.clone() });
    }
    if named_before(files, i) {
        return Err(ManifestError::DuplicateEntry { name: f.name.clone() });
    }
    Ok(())
}

/// Validates a parsed manifest: `Ok` exactly when no check refuses it,
/// else the first refusal in the order [`first_problem`] gives. A manifest
/// that cannot be fully honored is never half-honored.
pub fn validate_manifest(m: &ContributionManifest) -> (r: Result<(), ManifestError>)
    ensures
        r is Ok <==> first_problem(*m) is None,
        r matches Err(e) ==> first_problem(*m) matches Some(p) && same_problem(e, p),
{
    if m.version != SUPPORTED_VERSION {
        return Err(ManifestError::UnsupportedVersion { version: m.version });
    }
    match validate_identity_field(IdentityField::Contributor, &m.contributor) {
        Err(e) => return Err(e),
        Ok(()) => {},
    }
    if let Some(s) = &m.source {
        match validate_identity_field(IdentityField::Source, s) {
            Err(e) => return Err(e),
            Ok(()) => {},
        }
    }
    if let Some(t) = &m.para_target {
        match validate_identity_field(IdentityField::ParaTarget, t) {
            Err(e) => return Err(e),
            Ok(()) => {},
        }
        if occurrences(t.as_str(), '/') > 1 {
            return Err(ManifestError::ParaTargetSlashes { target: t.clone() });
        }
    }
    assert(first_problem(*m) == files_problem(m.files@, m.files@.len()));
    let mut i: usize = 0;
    while i < m.files.len()
        invariant
            i <= m.files.len(),
            files_problem(m.files@, i as nat) is None,
            first_problem(*m) == files_problem(m.files@, m.files@.len()),
        decreases m.files.len() - i,
    {
        match check_entry(&m.files, i) {
            Err(e) => {
                proof {
                    lemma_files_problem_sticks(m.files@, (i + 1) as nat, m.files@.len());
                }
                return Err(e);
            },
            Ok(()) => {},
        }
        i = i + 1;
    }
    Ok(())
}

/// Once a prefix of the entries holds a refusal, every longer prefix
/// reports that same refusal.
proof fn lemma_files_problem_sticks(files: Seq<ManifestFile>, k: nat, n: nat)
    requires
        k <= n,
        files_problem(files, k) is Some,
    ensures
        files_problem(files, n) == files_problem(files, k),
    decreases n - k,
{
    if n > k {
        lemma_files_problem_sticks(files, k, (n - 1) as nat);
    }
}

/// The shared tail of every refusal: the manifest is machine-written, so a
/// refusal needs a next step, not just a diagnosis.
pub open spec fn remedy() -> Seq<char> {
    " — contribution.json is machine-generated; re-export the contribution from the share sheet, or fix the manifest by hand"@
}

pub open spec fn field_name(f: IdentityField) -> Seq<char> {
    match f {
        IdentityField::Contributor => "contributor"@,
        IdentityField::Source => "source"@,
        IdentityField::ParaTarget => "para_target"@,
    }
}

/// The text a refusal is reported with; `path` is where the manifest was
/// read from.
pub open spec fn problem_message(e: ManifestError, path: Seq<char>) -> Seq<char> {
    match e {
        ManifestError::UnsupportedVersion { version } => path + " is version "@ + decimal(version as nat)
            + " — this maj supports version 1; upgrade maj or re-export the contribution"@,
        ManifestError::EmptyField { field } => "manifest '"@ + field_name(field) + "' is empty"@ + remedy(),
        ManifestError::EscapingField { field, value } => "manifest '"@ + field_name(field) + "' '"@ + value@
            + "' escapes the contribution folder"@ + remedy(),
        ManifestError::ParaTargetSlashes { target } => "manifest 'para_target' '"@ + target@
            + "' has more than one '/' — expected <kind>/<name> form (kind is project, area, resource, or archive; e.g. project/spring)"@
            + remedy(),
        ManifestError::EmptyFileName => "manifest lists an entry with an empty name — refusing the whole contribution"@
            + remedy(),
        ManifestError::DirectoryEntry { name } => "manifest entry '"@ + name@
            + "' names a directory, not a file — refusing the whole contribution"@ + remedy(),
        ManifestError::EscapingEntry { name } => "manifest entry '"@ + name@
            + "' escapes the contribution folder — refusing the whole contribution"@ + remedy(),
        ManifestError::MalformedHash { name, hash } => "manifest entry '"@ + name@ + "' has xxh64 '"@ + hash@
            + "' — expected exactly 16 lowercase hex characters — refusing the whole contribution"@ + remedy(),
        ManifestError::DuplicateEntry { name } => "manifest entry '"@ + name@
            + "' is listed more than once — refusing the whole contribution"@ + remedy(),
    }
}

fn remedy_text() -> (s: &'static str)
    ensures
        s@ == remedy(),
{
    " — contribution.json is machine-generated; re-export the contribution from the share sheet, or fix the manifest by hand"
}

fn field_text(f: IdentityField) -> (s: &'static str)
    ensures
        s@ == field_name(f),
{
    match f {
        IdentityField::Contributor => "contributor",
        IdentityField::Source => "source",
        IdentityField::ParaTarget => "para_target",
    }
}

fn cat3(a: &str, b: &str, c: &str) -> (out: String)
    ensures
        out@ == a@ + b@ + c@,
{
    let ab = cat(a, b);
    cat(ab.as_str(), c)
}

impl ManifestError {
    /// The text this refusal is reported with, naming the manifest at
    /// `path` where the version is wrong.
    pub fn message(&self, path: &str) -> (m: String)
        ensures
            m@ == problem_message(*self, path@),
    {
        let r = remedy_text();
        match self {
            ManifestError::UnsupportedVersion { version } => {
                let mut m = cat(path, " is version ");
                push_decimal(&mut m, *version as u64);
                m.append(" — this maj supports version 1; upgrade maj or re-export the contribution");
                m
            },
            ManifestError::EmptyField { field } => {
                let head = cat3("manifest '", field_text(*field), "' is empty");
                cat(head.as_str(), r)
            },
            ManifestError::EscapingField { field, value } => {
                let head = cat3("manifest '", field_text(*field), "' '");
                let head = cat3(head.as_str(), value.as_str(), "' escapes the contribution folder");
                cat(head.as_str(), r)
            },
            ManifestError::ParaTargetSlashes { target } => {
                let head = cat3(
                    "manifest 'para_target' '",
                    target.as_str(),
                    "' has more than one '/' — expected <kind>/<name> form (kind is project, area, resource, or archive; e.g. project/spring)",
                );
                cat(head.as_str(), r)
            },
            ManifestError::EmptyFileName => {
                cat("manifest lists an entry with an empty name — refusing the whole contribution", r)
            },
            ManifestError::DirectoryEntry { name } => {
                let head = cat3(
                    "manifest entry '",
                    name.as_str(),
                    "' names a directory, not a file — refusing the whole contribution",
                );
                cat(head.as_str(), r)
            },
            ManifestError::EscapingEntry { name } => {
                let head = cat3(
                    "manifest entry '",
                    name.as_str(),
                    "' escapes the contribution folder — refusing the whole contribution",
                );
                cat(head.as_str(), r)
            },
            ManifestError::MalformedHash { name, hash } => {
                let head = cat3("manifest entry '", name.as_str(), "' has xxh64 '");
                let head = cat3(
                    head.as_str(),
                    hash.as_str(),
                    "' — expected exactly 16 lowercase hex characters — refusing the whole contribution",
                );
                cat(head.as_str(), r)
            },
            ManifestError::DuplicateEntry { name } => {
                let head = cat3(
                    "manifest entry '",
                    name.as_str(),
                    "' is listed more than once — refusing the whole contribution",
                );
                cat(head.as_str(), r)
            },
        }
    }
}

/// What a listed path turned out to be when it is not a regular file.
#[derive(Debug, Clone, Copy)]
pub enum NonFile {
    Symlink,
    Directory,
    Special,
}

/// What looking at one listed file found, without following symlinks: it
/// is absent, a regular file of some length, something other than a
/// regular file, or the look itself failed for a reason other than absence.
#[derive(Debug)]
pub enum FileProbe {
    Missing,
    Present { len: u64 },
    NotRegular { what: NonFile },
    Failed { message: String },
}

/// The presence gate's findings. `waiting` lists files missing or short,
/// which the next pass may find complete; `unlisted` the folder's files the
/// manifest does not name, sorted; `refused` the listed entries that are
/// not regular files, which fail the whole contribution.
#[derive(Debug)]
pub struct FileCheck {
    pub waiting: Vec<String>,
    pub unlisted: Vec<String>,
    pub refused: Vec<String>,
}

pub open spec fn non_file_text(w: NonFile) -> Seq<char> {
    match w {
        NonFile::Symlink => "a symlink"@,
        NonFile::Directory => "a directory"@,
        NonFile::Special => "a special file"@,
    }
}

/// The `waiting` line a file's probe earns, if any.
pub open spec fn waiting_line(f: ManifestFile, p: FileProbe) -> Option<Seq<char>> {
    match p {
        FileProbe::Missing => Some(f.name@ + ": not yet present"@),
        FileProbe::Present { len } => if len == f.size {
            None
        } else {
            Some(f.name@ + ": "@ + decimal(len as nat) + " of "@ + decimal(f.size as nat)
                + " bytes present — still uploading?"@)
        },
        _ => None,
    }
}

/// The `refused` line a file's probe earns, if any.
pub open spec fn refused_line(f: ManifestFile, p: FileProbe) -> Option<Seq<char>> {
    match p {
        FileProbe::NotRegular { what } => Some(f.name@ + ": "@ + non_file_text(what)
            + ", not a regular file — refusing the whole contribution"@ + remedy()),
        _ => None,
    }
}

/// The lines the first `n` files earn, in order: the `refused` ones when
/// `refused`, else the `waiting` ones.
pub open spec fn probe_lines(files: Seq<ManifestFile>, probes: Seq<FileProbe>, n: nat, refused: bool) -> Seq<
    Seq<char>,
>
    decreases n,
{
    if n == 0 {
        Seq::empty()
    } else {
        let rest = probe_lines(files, probes, (n - 1) as nat, refused);
        let line = if refused {
            refused_line(files[n - 1], probes[n - 1])
        } else {
            waiting_line(files[n - 1], probes[n - 1])
        };
        match line {
            Some(l) => rest.push(l),
            None => rest,
        }
    }
}

/// The message of the first failed probe among the first `n`.
pub open spec fn first_failed_probe(probes: Seq<FileProbe>, n: nat) -> Option<Seq<char>>
    decreases n,
{
    if n == 0 {
        None
    } else {
        match first_failed_probe(probes, (n - 1) as nat) {
            Some(m) => Some(m),
            None => match probes[n - 1] {
                FileProbe::Failed { message } => Some(message@),
                _ => None,
            },
        }
    }
}

/// Whether the manifest lists `name`.
pub open spec fn is_listed(files: Seq<ManifestFile>, name: Seq<char>) -> bool {
    exists|i: int| 0 <= i < files.len() && #[trigger] files[i].name@ == name
}

/// The folder's files, relative and `/`-separated, that are neither the
/// manifest itself nor listed by it.
pub open spec fn unlisted_names(files: Seq<ManifestFile>, found: Seq<String>) -> Set<Seq<char>> {
    Set::new(
        |m: Seq<char>|
            (exists|i: int| 0 <= i < found.len() && #[trigger] found[i]@ == m) && m != "contribution.json"@
                && !is_listed(files, m),
    )
}

proof fn lemma_first_failed_sticks(probes: Seq<FileProbe>, k: nat, n: nat)
    requires
        k <= n,
        first_failed_probe(probes, k) is Some,
    ensures
        first_failed_probe(probes, n) == first_failed_probe(probes, k),
    decreases n - k,
{
    if n > k {
        lemma_first_failed_sticks(probes, k, (n - 1) as nat);
    }
}

fn listed(files: &Vec<ManifestFile>, name: &str) -> (r: bool)
    ensures
        r == is_listed(files@, name@),
{
    let mut i: usize = 0;
    while i < files.len()
        invariant
            i <= files.len(),
            forall|k: int| 0 <= k < i ==> files@[k].name@ != name@,
        decreases files.len() - i,
    {
        if str_eq(files[i].name.as_str(), name) {
            return true;
        }
        i = i + 1;
    }
    false
}

fn waiting_text(f: &ManifestFile, p: &FileProbe) -> (r: Option<String>)
    ensures
        match (r, waiting_line(*f, *p)) {
            (Some(a), Some(b)) => a@ == b,
            (None, None) => true,
            _ => false,
        },
{
    match p {
        FileProbe::Missing => Some(cat(f.name.as_str(), ": not yet present")),
        FileProbe::Present { len } => {
            if *len == f.size {
                None
            } else {
                let mut m = cat(f.name.as_str(), ": ");
                push_decimal(&mut m, *len);
                m.append(" of ");
                push_decimal(&mut m, f.size);
                m.append(" bytes present — still uploading?");
                Some(m)
            }
        },
        _ => None,
    }
}

fn refused_text(f: &ManifestFile, p: &FileProbe) -> (r: Option<String>)
    ensures
        match (r, refused_line(*f, *p)) {
            (Some(a), Some(b)) => a@ == b,
            (None, None) => true,
            _ => false,
        },
{
    match p {
        FileProbe::NotRegular { what } => {
            let w = match what {
                NonFile::Symlink => "a symlink",
                NonFile::Directory => "a directory",
                NonFile::Special => "a special file",
            };
            let head = cat3(f.name.as_str(), ": ", w);
            let head = cat3(head.as_str(), ", not a regular file — refusing the whole contribution", remedy_text());
            Some(head)
        },
        _ => None,
    }
}

/// The presence gate over a manifest's files, given what looking at each
/// listed file found (`probes[k]` for `files[k]`) and the folder's files
/// (relative, `/`-separated), or why they could not be listed. A failed
/// probe is an error (the first one, in listing order), then a failed
/// listing; otherwise the findings, with `unlisted` sorted.
pub fn check_files(
    manifest: &ContributionManifest,
    probes: &Vec<FileProbe>,
    found: Result<Vec<String>, String>,
) -> (r: Result<FileCheck, String>)
    requires
        probes.len() == manifest.files.len(),
    ensures
        first_failed_probe(probes@, probes@.len()) matches Some(m) ==> r matches Err(e) && e@ == m,
        first_failed_probe(probes@, probes@.len()) is None ==> match found {
            Err(w) => r matches Err(e) && e@ == w@,
            Ok(names) => r matches Ok(c) && {
                &&& string_views(c.waiting@) == probe_lines(manifest.files@, probes@, probes@.len(), false)
                &&& string_views(c.refused@) == probe_lines(manifest.files@, probes@, probes@.len(), true)
                &&& strictly_sorted(c.unlisted@)
                &&& key_set(c.unlisted@) == unlisted_names(manifest.files@, names@)
            },
        },
{
    let files = &manifest.files;
    let mut waiting: Vec<String> = Vec::new();
    let mut refused: Vec<String> = Vec::new();
    let mut i: usize = 0;
    while i < probes.len()
        invariant
            i <= probes.len(),
            probes.len() == files.len(),
            files == &manifest.files,
            first_failed_probe(probes@, i as nat) is None,
            string_views(waiting@) == probe_lines(files@, probes@, i as nat, false),
            string_views(refused@) == probe_lines(files@, probes@, i as nat, true),
        decreases probes.len() - i,
    {
        if let FileProbe::Failed { message } = &probes[i] {
            proof {
                lemma_first_failed_sticks(probes@, (i + 1) as nat, probes@.len());
            }
            return Err(message.clone());
        }
        match waiting_text(&files[i], &probes[i]) {
            Some(line) => {
                waiting.push(line);
            },
            None => {},
        }
        match refused_text(&files[i], &probes[i]) {
            Some(line) => {
                refused.push(line);
            },
            None => {},
        }
        assert(string_views(waiting@) =~= probe_lines(files@, probes@, (i + 1) as nat, false));
        assert(string_views(refused@) =~= probe_lines(files@, probes@, (i + 1) as nat, true));
        i = i + 1;
    }
    let names = match found {
        Err(w) => {
            return Err(w);
        },
        Ok(names) => names,
    };
    let mut unlisted: Vec<String> = Vec::new();
    let mut j: usize = 0;
    while j < names.len()
        invariant
            j <= names.len(),
            files == &manifest.files,
            strictly_sorted(unlisted@),
            key_set(unlisted@) == Set::new(
                |m: Seq<char>|
                    (exists|k: int| 0 <= k < j && #[trigger] names@[k]@ == m) && m != "contribution.json"@
                        && !is_listed(files@, m),
            ),
        decreases names.len() - j,
    {
        let name = names[j].as_str();
        let ghost before = key_set(unlisted@);
        if !str_eq(name, MANIFEST_NAME) && !listed(files, name) {
            insert_key(&mut unlisted, name);
        }
        proof {
            let next = Set::new(
                |m: Seq<char>|
                    (exists|k: int| 0 <= k < j + 1 && #[trigger] names@[k]@ == m) && m
                        != "contribution.json"@ && !is_listed(files@, m),
            );
            assert forall|m: Seq<char>| #[trigger] next.contains(m) <==> key_set(unlisted@).contains(m) by {
                if next.contains(m) {
                    let k = choose|k: int| 0 <= k < j + 1 && #[trigger] names@[k]@ == m;
                    if k < j {
                        assert(before.contains(m));
                    }
                }
                if before.contains(m) {
                    let k = choose|k: int| 0 <= k < j && #[trigger] names@[k]@ == m;
                    assert(0 <= k < j + 1 && names@[k]@ == m);
                }
            }
            assert(key_set(unlisted@) =~= next);
        }
        j = j + 1;
    }
    Ok(FileCheck { waiting, unlisted, refused })
}

} // verus!
