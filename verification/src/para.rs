//! PARA node references (`<kind>/<name>` or a raw node id), resolved against
//! the catalog's PARA nodes, and the per-root decisions `para archive`
//! makes before moving a node's materialized directory.
use vstd::prelude::*;
use crate::text::{
    cat, chars_of, join_path, join_strings, joined, path_join, str_eq, string_of_range, string_views,
};
use crate::notices::Notices;
use crate::error::ServiceError;

verus! {

#[derive(Debug, Clone, Copy, PartialEq, Eq, Structural)]
pub enum ParaKind {
    Project,
    Area,
    Resource,
    Archive,
}

pub open spec fn kind_name(kind: ParaKind) -> Seq<char> {
    match kind {
        ParaKind::Project => "project"@,
        ParaKind::Area => "area"@,
        ParaKind::Resource => "resource"@,
        ParaKind::Archive => "archive"@,
    }
}

/// The directory a node of `kind` materializes under inside a root.
pub open spec fn kind_dir(kind: ParaKind) -> Seq<char> {
    match kind {
        ParaKind::Project => "Projects"@,
        ParaKind::Area => "Areas"@,
        ParaKind::Resource => "Resources"@,
        ParaKind::Archive => "Archives"@,
    }
}

pub open spec fn unknown_kind_message(kind: Seq<char>) -> Seq<char> {
    "unknown PARA kind '"@ + kind + "' — one of: project, area, resource, archive"@
}

/// The kind a `--kind` string names.
pub open spec fn parse_kind_spec(kind: Seq<char>) -> Option<ParaKind> {
    if kind == "project"@ {
        Some(ParaKind::Project)
    } else if kind == "area"@ {
        Some(ParaKind::Area)
    } else if kind == "resource"@ {
        Some(ParaKind::Resource)
    } else if kind == "archive"@ {
        Some(ParaKind::Archive)
    } else {
        None
    }
}

/// Parsing a kind's own name gives that kind back, and a name parses to a
/// kind only when it is that kind's name: `project`, `area`, `resource` and
/// `archive` name the four kinds, one each.
pub proof fn parse_kind_reads_back_each_name(k: ParaKind, s: Seq<char>)
    ensures
        parse_kind_spec(kind_name(k)) == Some(k),
        parse_kind_spec(s) matches Some(p) ==> kind_name(p) == s,
        parse_kind_spec("project"@) == Some(ParaKind::Project),
        parse_kind_spec("area"@) == Some(ParaKind::Area),
        parse_kind_spec("resource"@) == Some(ParaKind::Resource),
        parse_kind_spec("archive"@) == Some(ParaKind::Archive),
{
    reveal_strlit("project");
    reveal_strlit("area");
    reveal_strlit("resource");
    reveal_strlit("archive");
    assert("project"@[0] == 'p' && "area"@[0] == 'a' && "resource"@[0] == 'r' && "archive"@[0] == 'a');
    assert("area"@.len() == 4 && "archive"@.len() == 7);
    assert("project"@ != "area"@);
    assert("project"@ != "resource"@);
    assert("project"@ != "archive"@);
    assert("area"@ != "resource"@);
    assert("area"@ != "archive"@);
    assert("resource"@ != "archive"@);
}

/// Parses a PARA kind name.
pub fn parse_kind(kind: &str) -> (r: Result<ParaKind, String>)
    ensures
        parse_kind_spec(kind@) matches Some(k) ==> r == Ok::<ParaKind, String>(k),
        parse_kind_spec(kind@) is None ==> (r matches Err(m) && m@ == unknown_kind_message(kind@)),
{
    if str_eq(kind, "project") {
        Ok(ParaKind::Project)
    } else if str_eq(kind, "area") {
        Ok(ParaKind::Area)
    } else if str_eq(kind, "resource") {
        Ok(ParaKind::Resource)
    } else if str_eq(kind, "archive") {
        Ok(ParaKind::Archive)
    } else {
        let head = cat("unknown PARA kind '", kind);
        Err(cat(head.as_str(), "' — one of: project, area, resource, archive"))
    }
}

/// The directory name a node of `kind` materializes under.
pub fn dir_name(kind: ParaKind) -> (s: &'static str)
    ensures
        s@ == kind_dir(kind),
{
    match kind {
        ParaKind::Project => "Projects",
        ParaKind::Area => "Areas",
        ParaKind::Resource => "Resources",
        ParaKind::Archive => "Archives",
    }
}

/// One PARA node as the catalog projects it.
#[derive(Debug)]
pub struct ParaNode {
    pub id: String,
    pub kind: Option<ParaKind>,
    pub name: Option<String>,
    pub archived: bool,
}

/// Whether `node` is an active node at `<kind>/<name>`.
pub open spec fn node_matches(node: ParaNode, kind: ParaKind, name: Seq<char>) -> bool {
    &&& !node.archived
    &&& node.kind == Some(kind)
    &&& node.name matches Some(n) && n@ == name
}

/// The ids of every active node at `<kind>/<name>`, in catalog order.
pub open spec fn matching_ids(nodes: Seq<ParaNode>, kind: ParaKind, name: Seq<char>) -> Seq<Seq<char>>
    decreases nodes.len(),
{
    if nodes.len() == 0 {
        Seq::empty()
    } else {
        let rest = matching_ids(nodes.drop_last(), kind, name);
        if node_matches(nodes.last(), kind, name) {
            rest.push(nodes.last().id@)
        } else {
            rest
        }
    }
}


/// The first index at or after `i` holding `c`, or the length when none
/// does.
pub open spec fn find_from(s: Seq<char>, c: char, i: int) -> int
    decreases s.len() - i,
{
    if i >= s.len() || i < 0 {
        s.len() as int
    } else if s[i] == c {
        i
    } else {
        find_from(s, c, i + 1)
    }
}

pub open spec fn unknown_node_message(reference: Seq<char>) -> Seq<char> {
    "unknown PARA node '"@ + reference + "' — use <kind>/<name> or a node id from `maj para list`"@
}

pub open spec fn no_active_node_message(reference: Seq<char>) -> Seq<char> {
    "no active PARA node '"@ + reference + "' — see `maj para list`"@
}

pub open spec fn ambiguous_node_message(reference: Seq<char>, ids: Seq<Seq<char>>) -> Seq<char> {
    "'"@ + reference + "' is ambiguous (concurrent creates); use a node id: "@ + joined(ids, ", "@)
}

/// Some node (archived or not) has id `id`.
pub open spec fn has_node_id(nodes: Seq<ParaNode>, id: Seq<char>) -> bool {
    exists|i: int| 0 <= i < nodes.len() && #[trigger] nodes[i].id@ == id
}

/// What a PARA reference resolves to: a node id as given (archived nodes
/// too), else the one active node at `<kind>/<name>`; or why it cannot.
pub open spec fn para_resolution(nodes: Seq<ParaNode>, reference: Seq<char>) -> Result<Seq<char>, Seq<char>> {
    if has_node_id(nodes, reference) {
        Ok(reference)
    } else {
        let k = find_from(reference, '/', 0);
        if k >= reference.len() {
            Err(unknown_node_message(reference))
        } else {
            let kind = reference.subrange(0, k);
            let name = reference.subrange(k + 1, reference.len() as int);
            match parse_kind_spec(kind) {
                None => Err(unknown_kind_message(kind)),
                Some(pk) => {
                    let ids = matching_ids(nodes, pk, name);
                    if ids.len() == 0 {
                        Err(no_active_node_message(reference))
                    } else if ids.len() == 1 {
                        Ok(ids[0])
                    } else {
                        Err(ambiguous_node_message(reference, ids))
                    }
                },
            }
        }
    }
}

fn node_is(node: &ParaNode, kind: ParaKind, name: &str) -> (r: bool)
    ensures
        r == node_matches(*node, kind, name@),
{
    if node.archived {
        return false;
    }
    match node.kind {
        Some(k) => if k != kind {
            return false;
        },
        None => {
            return false;
        },
    }
    match &node.name {
        Some(n) => str_eq(n.as_str(), name),
        None => false,
    }
}

/// Resolves `<kind>/<name>` or a raw node id against the catalog's PARA
/// nodes (in catalog order). The active-only restriction applies to the
/// `<kind>/<name>` form alone: an archived node is still addressable by id.
pub fn resolve_para_node(nodes: &Vec<ParaNode>, reference: &str) -> (r: Result<String, String>)
    ensures
        match (r, para_resolution(nodes@, reference@)) {
            (Ok(a), Ok(b)) => a@ == b,
            (Err(a), Err(b)) => a@ == b,
            _ => false,
        },
{
    let mut i: usize = 0;
    while i < nodes.len()
        invariant
            i <= nodes.len(),
            forall|j: int| 0 <= j < i ==> (#[trigger] nodes@[j]).id@ != reference@,
        decreases nodes.len() - i,
    {
        if str_eq(nodes[i].id.as_str(), reference) {
            assert(nodes@[i as int].id@ == reference@);
            return Ok(reference.to_owned());
        }
        i = i + 1;
    }
    let chars = chars_of(reference);
    let mut k: usize = 0;
    while k < chars.len() && chars[k] != '/'
        invariant
            chars@ == reference@,
            k <= chars.len(),
            find_from(reference@, '/', 0) == find_from(reference@, '/', k as int),
        decreases chars.len() - k,
    {
        k = k + 1;
    }
    if k >= chars.len() {
        let head = cat("unknown PARA node '", reference);
        return Err(cat(head.as_str(), "' — use <kind>/<name> or a node id from `maj para list`"));
    }
    let kind_str = string_of_range(&chars, 0, k);
    let name = string_of_range(&chars, k + 1, chars.len());
    let kind = match parse_kind(kind_str.as_str()) {
        Ok(kind) => kind,
        Err(e) => {
            return Err(e);
        },
    };
    let mut ids: Vec<String> = Vec::new();
    let mut j: usize = 0;
    while j < nodes.len()
        invariant
            j <= nodes.len(),
            string_views(ids@) == matching_ids(nodes@.subrange(0, j as int), kind, name@),
        decreases nodes.len() - j,
    {
        proof {
            assert(nodes@.subrange(0, j + 1).drop_last() =~= nodes@.subrange(0, j as int));
        }
        if node_is(&nodes[j], kind, name.as_str()) {
            ids.push(nodes[j].id.clone());
        }
        j = j + 1;
        assert(string_views(ids@) =~= matching_ids(nodes@.subrange(0, j as int), kind, name@));
    }
    assert(nodes@.subrange(0, nodes.len() as int) =~= nodes@);
    if ids.len() == 0 {
        let head = cat("no active PARA node '", reference);
        return Err(cat(head.as_str(), "' — see `maj para list`"));
    }
    if ids.len() == 1 {
        return Ok(ids[0].clone());
    }
    let head = cat("'", reference);
    let head = cat(head.as_str(), "' is ambiguous (concurrent creates); use a node id: ");
    let list = join_strings(&ids, ", ");
    Err(cat(head.as_str(), list.as_str()))
}

/// What happened (or would happen) to one root's materialized directory.
#[derive(Debug, Clone, Copy, PartialEq, Eq, Structural)]
pub enum MoveStatus {
    /// Actually moved this run.
    Moved,
    /// Source already gone and target already present — an earlier partial
    /// run already moved this root; skipped so a re-run converges.
    AlreadyArchived,
    /// `--dry-run`: what would happen, nothing touched on disk.
    Planned,
}

/// One root's materialized-directory move, or what would happen to it under
/// `--dry-run`.
#[derive(Debug)]
pub struct ArchiveMove {
    pub from: String,
    pub to: String,
    pub status: MoveStatus,
}

/// Everything `para archive` did (or planned). `executed` is `false` in a
/// dry run, in which case no archive event was emitted.
#[derive(Debug)]
pub struct ArchiveOutcome {
    pub moves: Vec<ArchiveMove>,
    pub executed: bool,
    pub notices: Vec<String>,
}

/// A freshly created (or resolved) PARA node's id.
#[derive(Debug)]
pub struct NodeId(pub String);

/// One PARA node row, as the catalog lists it.
#[derive(Debug)]
pub struct ParaNodeRow {
    pub id: String,
    pub kind: String,
    pub name: String,
    pub archived: bool,
}

/// Everything `para list` renders.
#[derive(Debug)]
pub struct ParaOutcome {
    pub nodes: Vec<ParaNodeRow>,
    pub notices: Vec<String>,
}


pub open spec fn no_kind_message(id: Seq<char>) -> Seq<char> {
    "PARA node "@ + id + " has no kind recorded — its create event may be missing"@
}

pub open spec fn no_name_message(id: Seq<char>) -> Seq<char> {
    "PARA node "@ + id + " has no name recorded — its create event may be missing"@
}

/// The first node with id `id`.
pub open spec fn node_with_id(nodes: Seq<ParaNode>, id: Seq<char>) -> ParaNode {
    nodes[choose|i: int|
        0 <= i < nodes.len() && #[trigger] nodes[i].id@ == id && forall|j: int|
            0 <= j < i ==> #[trigger] nodes[j].id@ != id]
}

/// The node `para archive` acts on: the one the reference resolves to,
/// with the kind and name its create event recorded; or why there is none.
pub open spec fn archive_subject(nodes: Seq<ParaNode>, reference: Seq<char>) -> Result<(Seq<char>, ParaKind, Seq<char>), Seq<char>> {
    match para_resolution(nodes, reference) {
        Err(m) => Err(m),
        Ok(id) => {
            let node = node_with_id(nodes, id);
            match node.kind {
                None => Err(no_kind_message(id)),
                Some(kind) => match node.name {
                    None => Err(no_name_message(id)),
                    Some(name) => Ok((id, kind, name@)),
                },
            }
        },
    }
}

proof fn lemma_resolution_names_a_node(nodes: Seq<ParaNode>, reference: Seq<char>)
    ensures
        para_resolution(nodes, reference) matches Ok(id) ==> has_node_id(nodes, id),
    decreases nodes.len(),
{
    if !has_node_id(nodes, reference) {
        let k = find_from(reference, '/', 0);
        if k < reference.len() {
            let kind = reference.subrange(0, k);
            let name = reference.subrange(k + 1, reference.len() as int);
            if let Some(pk) = parse_kind_spec(kind) {
                let ids = matching_ids(nodes, pk, name);
                if ids.len() == 1 {
                    lemma_matching_ids_are_ids(nodes, pk, name, 0);
                }
            }
        }
    }
}

proof fn lemma_matching_ids_are_ids(nodes: Seq<ParaNode>, kind: ParaKind, name: Seq<char>, i: int)
    requires
        0 <= i < matching_ids(nodes, kind, name).len(),
    ensures
        has_node_id(nodes, matching_ids(nodes, kind, name)[i]),
    decreases nodes.len(),
{
    let rest = matching_ids(nodes.drop_last(), kind, name);
    if i < rest.len() {
        lemma_matching_ids_are_ids(nodes.drop_last(), kind, name, i);
        let w = choose|w: int| 0 <= w < nodes.drop_last().len() && #[trigger] nodes.drop_last()[w].id@ == rest[i];
        assert(nodes[w].id@ == rest[i]);
    } else {
        assert(nodes[nodes.len() - 1].id@ == matching_ids(nodes, kind, name)[i]);
    }
}

/// Resolves the node `para archive` acts on, with its recorded kind and
/// name.
pub fn archive_subject_of(nodes: &Vec<ParaNode>, reference: &str) -> (r: Result<(String, ParaKind, String), String>)
    ensures
        match (r, archive_subject(nodes@, reference@)) {
            (Ok((id, kind, name)), Ok((sid, skind, sname))) => id@ == sid && kind == skind && name@ == sname,
            (Err(a), Err(b)) => a@ == b,
            _ => false,
        },
{
    let id = match resolve_para_node(nodes, reference) {
        Ok(id) => id,
        Err(e) => {
            return Err(e);
        },
    };
    proof {
        lemma_resolution_names_a_node(nodes@, reference@);
    }
    let mut i: usize = 0;
    while i < nodes.len() && !str_eq(nodes[i].id.as_str(), id.as_str())
        invariant
            i <= nodes.len(),
            has_node_id(nodes@, id@),
            forall|j: int| 0 <= j < i ==> #[trigger] nodes@[j].id@ != id@,
        decreases nodes.len() - i,
    {
        i = i + 1;
    }
    if i >= nodes.len() {
        proof {
            let w = choose|w: int| 0 <= w < nodes@.len() && #[trigger] nodes@[w].id@ == id@;
            assert(nodes@[w].id@ != id@);
        }
        return Err("resolved node vanished from the projection".to_owned());
    }
    proof {
        assert(nodes@[i as int].id@ == id@);
        let c = choose|c: int|
            0 <= c < nodes@.len() && #[trigger] nodes@[c].id@ == id@ && forall|j: int|
                0 <= j < c ==> #[trigger] nodes@[j].id@ != id@;
        if c < i {
            assert(nodes@[c].id@ != id@);
        }
        if c > i {
            assert(nodes@[i as int].id@ != id@);
        }
        assert(node_with_id(nodes@, id@) == nodes@[i as int]);
    }
    let node = &nodes[i];
    let kind = match node.kind {
        Some(k) => k,
        None => {
            let head = cat("PARA node ", id.as_str());
            return Err(cat(head.as_str(), " has no kind recorded — its create event may be missing"));
        },
    };
    let name = match &node.name {
        Some(n) => n.clone(),
        None => {
            let head = cat("PARA node ", id.as_str());
            return Err(cat(head.as_str(), " has no name recorded — its create event may be missing"));
        },
    };
    Ok((id, kind, name))
}

pub open spec fn already_archived_kind_message() -> Seq<char> {
    "node of kind archive is already under Archives/ — nothing to move"@
}

/// A node of kind `archive` already materializes under `Archives/`, so
/// moving it under any root is refused; with no roots only the archive
/// event is emitted, which is always allowed.
pub fn check_archivable(kind: ParaKind, has_roots: bool) -> (r: Result<(), String>)
    ensures
        r is Ok <==> !(has_roots && kind == ParaKind::Archive),
        r matches Err(m) ==> m@ == already_archived_kind_message(),
{
    if has_roots && kind == ParaKind::Archive {
        return Err("node of kind archive is already under Archives/ — nothing to move".to_owned());
    }
    Ok(())
}

/// What the host found at one root before archiving: whether the node's
/// directory is there, and whether the archive target already is.
#[derive(Debug)]
pub struct RootProbe {
    pub source_is_dir: bool,
    pub target_is_dir: bool,
    pub target_exists: bool,
}

/// One root's next step: nothing to do but record the move, or create
/// `archives_dir` and rename `mv.from` to `mv.to`, then record `mv`.
#[derive(Debug)]
pub enum RootStep {
    Record(ArchiveMove),
    Move { archives_dir: String, mv: ArchiveMove },
}

/// The node's directory under `root`.
pub open spec fn archive_source(root: Seq<char>, kind: ParaKind, name: Seq<char>) -> Seq<char> {
    path_join(path_join(root, kind_dir(kind)), name)
}

/// Where the node's directory goes under `root`.
pub open spec fn archive_target(root: Seq<char>, name: Seq<char>) -> Seq<char> {
    path_join(path_join(root, "Archives"@), name)
}

pub open spec fn missing_source_message(source: Seq<char>) -> Seq<char> {
    "source directory "@ + source + " does not exist — nothing to archive"@
}

pub open spec fn target_exists_message(target: Seq<char>) -> Seq<char> {
    "archive target "@ + target + " already exists"@
}

/// `m` moves `from` to `to` with `status`.
pub open spec fn is_move(m: ArchiveMove, from: Seq<char>, to: Seq<char>, status: MoveStatus) -> bool {
    m.from@ == from && m.to@ == to && m.status == status
}

/// Classifies one root: already archived by an earlier partial run (source
/// gone, target there), planned under `--dry-run`, or to be moved now —
/// refused when the source is missing or the target already exists.
pub fn archive_one_root(root: &str, kind: ParaKind, name: &str, dry_run: bool, probe: &RootProbe) -> (r: Result<RootStep, String>)
    ensures
        ({
            let source = archive_source(root@, kind, name@);
            let target = archive_target(root@, name@);
            if !probe.source_is_dir && probe.target_is_dir {
                r matches Ok(RootStep::Record(m)) && is_move(m, source, target, MoveStatus::AlreadyArchived)
            } else if dry_run {
                r matches Ok(RootStep::Record(m)) && is_move(m, source, target, MoveStatus::Planned)
            } else if !probe.source_is_dir {
                r matches Err(e) && e@ == missing_source_message(source)
            } else if probe.target_exists {
                r matches Err(e) && e@ == target_exists_message(target)
            } else {
                r matches Ok(RootStep::Move { archives_dir, mv }) && archives_dir@ == path_join(root@, "Archives"@)
                    && is_move(mv, source, target, MoveStatus::Moved)
            }
        }),
{
    let kind_root = join_path(root, dir_name(kind));
    let source = join_path(kind_root.as_str(), name);
    let archives_dir = join_path(root, "Archives");
    let target = join_path(archives_dir.as_str(), name);
    if !probe.source_is_dir && probe.target_is_dir {
        return Ok(RootStep::Record(ArchiveMove { from: source, to: target, status: MoveStatus::AlreadyArchived }));
    }
    if dry_run {
        return Ok(RootStep::Record(ArchiveMove { from: source, to: target, status: MoveStatus::Planned }));
    }
    if !probe.source_is_dir {
        let head = cat("source directory ", source.as_str());
        return Err(cat(head.as_str(), " does not exist — nothing to archive"));
    }
    if probe.target_exists {
        let head = cat("archive target ", target.as_str());
        return Err(cat(head.as_str(), " already exists"));
    }
    Ok(RootStep::Move { archives_dir, mv: ArchiveMove { from: source, to: target, status: MoveStatus::Moved } })
}

/// `para archive`'s outcome once every root's move is recorded and — unless
/// this is a dry run — the archive event was emitted: the moves, whether it
/// executed, and the diagnostics collected.
pub fn archive_outcome(moves: Vec<ArchiveMove>, dry_run: bool, notices: &mut Notices) -> (o: ArchiveOutcome)
    ensures
        o.moves@ == moves@,
        o.executed == !dry_run,
        o.notices@ == old(notices)@,
        final(notices)@.len() == 0,
{
    ArchiveOutcome { moves, executed: !dry_run, notices: notices.drain() }
}


/// Whether every one of the first `n` roots' results succeeded.
pub open spec fn all_roots_done(results: Seq<Result<ArchiveMove, String>>, n: int) -> bool {
    forall|i: int| 0 <= i < n ==> (#[trigger] results[i]) is Ok
}

/// Folds the roots' results, in root order, into `para archive`'s moves:
/// every move when each root succeeded; at the first root that failed,
/// the partial-failure error carrying the moves the earlier roots
/// completed, and that root's failure (the host stops there).
pub fn archive_roots(results: Vec<Result<ArchiveMove, String>>) -> (r: Result<Vec<ArchiveMove>, ServiceError>)
    ensures
        all_roots_done(results@, results.len() as int) ==> (r matches Ok(moves) && moves.len() == results.len()
            && forall|i: int| 0 <= i < moves.len() ==> results@[i] == Ok::<ArchiveMove, String>(#[trigger] moves@[i])),
        forall|k: int|
            0 <= k < results.len() && all_roots_done(results@, k) && #[trigger] results@[k] is Err ==> (r matches Err(
                ServiceError::ParaArchivePartial { moves, source },
            ) && moves.len() == k && results@[k] == Err::<ArchiveMove, String>(source) && forall|i: int|
                0 <= i < k ==> results@[i] == Ok::<ArchiveMove, String>(#[trigger] moves@[i])),
{
    let ghost all = results@;
    assert(all.len() == results.len());
    let mut rest = results;
    let mut moves: Vec<ArchiveMove> = Vec::new();
    let mut i: usize = 0;
    while rest.len() > 0
        invariant
            all == results@,
            all.len() <= usize::MAX,
            i + rest.len() == all.len(),
            rest@ == all.subrange(i as int, all.len() as int),
            moves.len() == i,
            all_roots_done(all, i as int),
            forall|j: int| 0 <= j < i ==> all[j] == Ok::<ArchiveMove, String>(#[trigger] moves@[j]),
        decreases rest.len(),
    {
        let next = rest.remove(0);
        assert(next == all[i as int]);
        match next {
            Ok(mv) => {
                moves.push(mv);
            },
            Err(source) => {
                proof {
                    assert(all[i as int] == Err::<ArchiveMove, String>(source));
                    assert(!all_roots_done(all, all.len() as int)) by {
                        assert(!(all[i as int] is Ok));
                    }
                    assert forall|k: int| 0 <= k < all.len() && all_roots_done(all, k) && #[trigger] all[k] is Err implies k == i by {
                        if k < i {
                            assert(all[k] is Ok);
                        } else if k > i {
                            assert(all[i as int] is Ok);
                        }
                    }
                }
                return Err(ServiceError::ParaArchivePartial { moves, source });
            },
        }
        i = i + 1;
        assert(rest@ =~= all.subrange(i as int, all.len() as int));
    }
    proof {
        assert forall|k: int| 0 <= k < all.len() implies !(#[trigger] all[k] is Err) by {
            assert(all[k] is Ok);
        }
    }
    Ok(moves)
}

/// A ULID, the id a new PARA node gets.
#[verifier::external_type_specification]
#[verifier::external_body]
pub struct ExUlid(ulid::Ulid);

/// `Ulid::generate`: a fresh id from the current time and randomness;
/// nothing is known of the value.
#[verifier::external_body]
fn ulid_generate() -> ulid::Ulid {
    ulid::Ulid::generate()
}

/// The characters of Crockford's base32 alphabet a ULID is written in.
pub open spec fn is_crockford(c: char) -> bool {
    ('0' <= c && c <= '9') || ('A' <= c && c <= 'Z' && c != 'I' && c != 'L' && c != 'O' && c != 'U')
}

/// `Ulid::to_string`: the id's canonical text, 26 characters of
/// Crockford's base32 alphabet (`base32::encode` writes exactly
/// `ULID_LEN` characters, each from `ALPHABET`).
#[verifier::external_body]
fn ulid_text(u: &ulid::Ulid) -> (s: String)
    ensures
        s@.len() == 26,
        forall|i: int| 0 <= i < 26 ==> is_crockford(#[trigger] s@[i]),
{
    u.to_string()
}

/// A PARA node to create: its fresh id, its kind and its name.
#[derive(Debug)]
pub struct NewNode {
    pub id: NodeId,
    pub kind: ParaKind,
    pub name: String,
}

/// The refusal for a second active node at the same place.
pub open spec fn duplicate_node_message(kind: Seq<char>, name: Seq<char>) -> Seq<char> {
    "a PARA node '"@ + kind + "/"@ + name + "' already exists — see `maj para list`"@
}

/// Whether some node in `nodes` is an active node at `<kind>/<name>`.
pub open spec fn has_active(nodes: Seq<ParaNode>, kind: ParaKind, name: Seq<char>) -> bool {
    exists|i: int| 0 <= i < nodes.len() && node_matches(#[trigger] nodes[i], kind, name)
}

fn active_at(nodes: &Vec<ParaNode>, kind: ParaKind, name: &str) -> (r: bool)
    ensures
        r == has_active(nodes@, kind, name@),
{
    let mut i: usize = 0;
    while i < nodes.len()
        invariant
            i <= nodes.len(),
            forall|k: int| 0 <= k < i ==> !node_matches(#[trigger] nodes@[k], kind, name@),
        decreases nodes.len() - i,
    {
        let n = &nodes[i];
        let hit = !n.archived && match (&n.kind, &n.name) {
            (Some(k), Some(nm)) => *k == kind && str_eq(nm.as_str(), name),
            _ => false,
        };
        if hit {
            assert(node_matches(nodes@[i as int], kind, name@));
            return true;
        }
        i = i + 1;
    }
    false
}

/// `maj para add`: a new node of kind `kind_str` named `name`, refused for
/// an unknown kind or when an active node already sits at that place; the
/// new node gets a fresh ULID.
pub fn add(nodes: &Vec<ParaNode>, kind_str: &str, name: &str) -> (r: Result<NewNode, String>)
    ensures
        parse_kind_spec(kind_str@) is None ==> (r matches Err(m) && m@ == unknown_kind_message(kind_str@)),
        parse_kind_spec(kind_str@) matches Some(k) ==> (has_active(nodes@, k, name@) ==> (r matches Err(m) && m@
            == duplicate_node_message(kind_str@, name@))),
        parse_kind_spec(kind_str@) matches Some(k) ==> (!has_active(nodes@, k, name@) ==> (r matches Ok(n) && n.kind
            == k && n.name@ == name@ && n.id.0@.len() == 26)),
{
    let kind = match parse_kind(kind_str) {
        Ok(k) => k,
        Err(e) => return Err(e),
    };
    if active_at(nodes, kind, name) {
        let head = cat("a PARA node '", kind_str);
        let head = cat(head.as_str(), "/");
        let head = cat(head.as_str(), name);
        return Err(cat(head.as_str(), "' already exists — see `maj para list`"));
    }
    let u = ulid_generate();
    let id = ulid_text(&u);
    Ok(NewNode { id: NodeId(id), kind, name: name.to_owned() })
}


/// `maj para rename`: the node `reference` resolves to, with its new
/// name, or why the reference resolves to no node.
pub fn rename(nodes: &Vec<ParaNode>, reference: &str, name: &str) -> (r: Result<(String, String), String>)
    ensures
        match (r, para_resolution(nodes@, reference@)) {
            (Ok((id, n)), Ok(want)) => id@ == want && n@ == name@,
            (Err(m), Err(why)) => m@ == why,
            _ => false,
        },
{
    match resolve_para_node(nodes, reference) {
        Ok(id) => Ok((id, name.to_owned())),
        Err(e) => Err(e),
    }
}

} // verus!
