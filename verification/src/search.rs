//! The rules `maj search` applies around its index lookups: which sources
//! an `in:` restriction selects, whether the image-vector layer runs, how
//! a `key:value` filter resolves, how ranked hits collapse to one per
//! asset, which lists reach rank fusion under a hard filter, and the notes
//! and remedies a degraded search prints.
use vstd::prelude::*;
use crate::para::{ParaNode, para_resolution, resolve_para_node};
use crate::error::ServiceError;
use crate::text::{
    join_strings, joined,
    cat, chars_of, insert_key, key_set, push_char, str_eq, strictly_sorted, string_of_range,
    string_views, trim, trimmed,
};

verus! {

/// Request for a search: a literal query or a saved search's name, a
/// result limit, and optionally a name to save the query under.
#[derive(Debug)]
pub struct SearchRequest {
    pub query: Option<String>,
    pub limit: usize,
    pub saved: Option<String>,
    pub save: Option<String>,
}

/// One volume holding an instance of a hit asset, and whether it is
/// mounted.
#[derive(Debug)]
pub struct VolumeRef {
    pub id: String,
    pub label: String,
    pub online: bool,
}

/// One text source's coverage: how much of the eligible catalog it has
/// indexed, and the command that closes the gap.
#[derive(Debug)]
pub struct TextCoverageNotice {
    pub label: String,
    pub noun: String,
    pub covered: usize,
    pub eligible: usize,
    pub remedy: String,
    pub source: String,
}

/// How many eligible assets the image-semantic layer has embedded.
#[derive(Debug)]
pub struct SemanticCoverage {
    pub embedded: u64,
    pub eligible: u64,
}

/// A saved search's name and the query it runs.
#[derive(Debug)]
pub struct SavedSearch {
    pub name: String,
    pub query: String,
}

/// One parsed `key:value` token, `-` prefixed when `negated`.
#[derive(Debug)]
pub struct RawFilter {
    pub key: String,
    pub value: String,
    pub negated: bool,
}

/// The `in:` sources search understands.
pub open spec fn is_in_source(v: Seq<char>) -> bool {
    v == "transcript"@ || v == "caption"@ || v == "ocr"@ || v == "pdf"@ || v == "name"@
}

/// An `in:` filter search accepts.
pub open spec fn in_filter_ok(f: RawFilter) -> bool {
    !f.negated && is_in_source(f.value@)
}

pub open spec fn is_in_filter(f: RawFilter) -> bool {
    f.key@ == "in"@
}

pub open spec fn in_negation_message() -> Seq<char> {
    "in: does not support negation — name only the sources to search"@
}

pub open spec fn unknown_in_message(v: Seq<char>) -> Seq<char> {
    "unknown in: source '"@ + v + "' — one of: transcript, caption, ocr, pdf, name"@
}

/// The sources named by the `in:` filters among `raw`.
pub open spec fn in_values(raw: Seq<RawFilter>) -> Set<Seq<char>> {
    Set::new(|v: Seq<char>| exists|i: int| 0 <= i < raw.len() && is_in_filter(#[trigger] raw[i]) && raw[i].value@ == v)
}

/// What `in_sources` answers for `raw`.
pub open spec fn in_sources_result(raw: Seq<RawFilter>, r: Result<Option<Vec<String>>, String>) -> bool {
    if exists|i: int| 0 <= i < raw.len() && is_in_filter(#[trigger] raw[i]) && !in_filter_ok(raw[i]) {
        exists|i: int|
            0 <= i < raw.len() && is_in_filter(#[trigger] raw[i]) && !in_filter_ok(raw[i]) && (forall|j: int|
                0 <= j < i && is_in_filter(#[trigger] raw[j]) ==> in_filter_ok(raw[j])) && (r matches Err(m) && m@ == if raw[i].negated {
                in_negation_message()
            } else {
                unknown_in_message(raw[i].value@)
            })
    } else if exists|i: int| 0 <= i < raw.len() && is_in_filter(#[trigger] raw[i]) {
        r matches Ok(Some(v)) && strictly_sorted(v@) && key_set(v@) == in_values(raw)
    } else {
        r matches Ok(None)
    }
}

/// Whether `v` is one of the sources `in:` is documented to take:
/// transcript, caption, ocr, pdf, name.
pub open spec fn documented_in_source(v: Seq<char>) -> bool {
    ||| v == "transcript"@
    ||| v == "caption"@
    ||| v == "ocr"@
    ||| v == "pdf"@
    ||| v == "name"@
}

/// Every documented `in:` source is searchable: when each `in:` filter is
/// un-negated and names one of transcript, caption, ocr, pdf or name, the
/// query is restricted to a source set holding every named source; and a
/// refusal only ever comes from a negated `in:` or a value outside that
/// list.
pub proof fn every_documented_in_source_is_searchable(raw: Seq<RawFilter>, r: Result<Option<Vec<String>>, String>)
    requires
        in_sources_result(raw, r),
    ensures
        ((exists|i: int| 0 <= i < raw.len() && #[trigger] is_in_filter(raw[i])) && (forall|i: int|
            0 <= i < raw.len() && #[trigger] is_in_filter(raw[i]) ==> !raw[i].negated && documented_in_source(raw[i].value@)))
            ==> (r matches Ok(Some(v)) && forall|i: int|
            0 <= i < raw.len() && #[trigger] is_in_filter(raw[i]) ==> exists|k: int| 0 <= k < v.len() && v@[k]@ == raw[i].value@),
        r is Err ==> exists|i: int|
            0 <= i < raw.len() && #[trigger] is_in_filter(raw[i]) && (raw[i].negated || !documented_in_source(raw[i].value@)),
{
    if (exists|i: int| 0 <= i < raw.len() && #[trigger] is_in_filter(raw[i])) && (forall|i: int|
        0 <= i < raw.len() && #[trigger] is_in_filter(raw[i]) ==> !raw[i].negated && documented_in_source(raw[i].value@)) {
        assert(!(exists|i: int| 0 <= i < raw.len() && is_in_filter(#[trigger] raw[i]) && !in_filter_ok(raw[i]))) by {
            if exists|i: int| 0 <= i < raw.len() && is_in_filter(#[trigger] raw[i]) && !in_filter_ok(raw[i]) {
                let i = choose|i: int| 0 <= i < raw.len() && is_in_filter(#[trigger] raw[i]) && !in_filter_ok(raw[i]);
                assert(!raw[i].negated && documented_in_source(raw[i].value@));
            }
        }
        let v = r->Ok_0->Some_0;
        assert forall|i: int| 0 <= i < raw.len() && #[trigger] is_in_filter(raw[i]) implies exists|k: int|
            0 <= k < v.len() && v@[k]@ == raw[i].value@ by {
            assert(in_values(raw).contains(raw[i].value@));
            assert(key_set(v@).contains(raw[i].value@));
        }
    }
    if r is Err {
        let i = choose|i: int|
            0 <= i < raw.len() && is_in_filter(#[trigger] raw[i]) && !in_filter_ok(raw[i]) && (forall|j: int|
                0 <= j < i && is_in_filter(#[trigger] raw[j]) ==> in_filter_ok(raw[j])) && (r matches Err(m) && m@ == if raw[i].negated {
                in_negation_message()
            } else {
                unknown_in_message(raw[i].value@)
            });
        assert(is_in_filter(raw[i]) && (raw[i].negated || !documented_in_source(raw[i].value@)));
    }
}

fn is_in_source_exec(v: &str) -> (r: bool)
    ensures
        r == is_in_source(v@),
{
    str_eq(v, "transcript") || str_eq(v, "caption") || str_eq(v, "ocr") || str_eq(v, "pdf")
        || str_eq(v, "name")
}

/// Collects the `in:` filters into the set of sources to search — `None`
/// when there is none (search everything); several union. Refuses a
/// negated `in:` and a source outside the known five, naming them.
pub fn in_sources(raw: &Vec<RawFilter>) -> (r: Result<Option<Vec<String>>, String>)
    ensures
        in_sources_result(raw@, r),
{
    let mut sources: Vec<String> = Vec::new();
    let mut any = false;
    let mut i: usize = 0;
    assert(key_set(sources@) =~= in_values(raw@.subrange(0, 0)));
    while i < raw.len()
        invariant
            i <= raw.len(),
            strictly_sorted(sources@),
            key_set(sources@) == in_values(raw@.subrange(0, i as int)),
            forall|j: int| 0 <= j < i && is_in_filter(#[trigger] raw@[j]) ==> in_filter_ok(raw@[j]),
            any == exists|j: int| 0 <= j < i && is_in_filter(#[trigger] raw@[j]),
        decreases raw.len() - i,
    {
        let ghost pre = raw@.subrange(0, i as int);
        let ghost next = raw@.subrange(0, i + 1);
        let f = &raw[i];
        if str_eq(f.key.as_str(), "in") {
            if f.negated {
                assert(!in_filter_ok(raw@[i as int]));
                return Err("in: does not support negation — name only the sources to search".to_owned());
            }
            if !is_in_source_exec(f.value.as_str()) {
                assert(!in_filter_ok(raw@[i as int]));
                let head = cat("unknown in: source '", f.value.as_str());
                return Err(cat(head.as_str(), "' — one of: transcript, caption, ocr, pdf, name"));
            }
            any = true;
            let _ = insert_key(&mut sources, f.value.as_str());
        }
        proof {
            assert forall|v: Seq<char>| #[trigger] in_values(next).contains(v) <==> (in_values(pre).contains(v)
                || (is_in_filter(raw@[i as int]) && raw@[i as int].value@ == v)) by {
                if in_values(next).contains(v) {
                    let w = choose|w: int| 0 <= w < next.len() && is_in_filter(#[trigger] next[w]) && next[w].value@ == v;
                    if w < i {
                        assert(is_in_filter(pre[w]));
                    }
                }
                if in_values(pre).contains(v) {
                    let w = choose|w: int| 0 <= w < pre.len() && is_in_filter(#[trigger] pre[w]) && pre[w].value@ == v;
                    assert(is_in_filter(next[w]));
                }
                if is_in_filter(raw@[i as int]) && raw@[i as int].value@ == v {
                    assert(is_in_filter(next[i as int]));
                }
            }
            if is_in_filter(raw@[i as int]) {
                assert(in_values(next) =~= in_values(pre).insert(raw@[i as int].value@));
            } else {
                assert(in_values(next) =~= in_values(pre));
            }
        }
        i = i + 1;
    }
    assert(raw@.subrange(0, raw.len() as int) =~= raw@);
    if any {
        Ok(Some(sources))
    } else {
        Ok(None)
    }
}

/// The image-vector layer runs only on an unrestricted query: image
/// vectors match visual content, not a nameable text source.
pub fn image_semantic_enabled(sources: Option<&Vec<String>>) -> (r: bool)
    ensures
        r == (sources is None),
{
    sources.is_none()
}

/// The four text sources, in the order notices print them.
pub open spec fn text_sources() -> Seq<Seq<char>> {
    seq!["transcript"@, "caption"@, "ocr"@, "pdf"@]
}

/// The four text sources narrowed to the `in:` set, in notice order —
/// `None` when the query is unrestricted.
pub fn selected_text_sources(sources: Option<&Vec<String>>) -> (r: Option<Vec<String>>)
    ensures
        match (sources, r) {
            (None, None) => true,
            (Some(s), Some(v)) => string_views(v@) == text_sources().filter(
                |t: Seq<char>| key_set(s@).contains(t),
            ),
            _ => false,
        },
{
    match sources {
        None => None,
        Some(selected) => {
            let ghost pred = |t: Seq<char>| key_set(selected@).contains(t);
            let mut out: Vec<String> = Vec::new();
            let names = ["transcript", "caption", "ocr", "pdf"];
            let mut i: usize = 0;
            proof {
                reveal(Seq::filter);
                reveal_strlit("transcript");
                reveal_strlit("caption");
                reveal_strlit("ocr");
                reveal_strlit("pdf");
                assert(string_views(out@) =~= text_sources().subrange(0, 0).filter(pred));
            }
            while i < 4
                invariant
                    i <= 4,
                    names@.len() == 4,
                    forall|k: int| 0 <= k < 4 ==> (#[trigger] names@[k])@ == text_sources()[k],
                    pred == (|t: Seq<char>| key_set(selected@).contains(t)),
                    string_views(out@) == text_sources().subrange(0, i as int).filter(pred),
                decreases 4 - i,
            {
                proof {
                    reveal(Seq::filter);
                    assert(text_sources().subrange(0, i + 1).drop_last() =~= text_sources().subrange(0, i as int));
                }
                let name = names[i];
                if crate::index::contains_string(selected, name) {
                    out.push(name.to_owned());
                    assert(string_views(out@) =~= text_sources().subrange(0, i + 1).filter(pred)) by {
                        let w = choose|w: int| 0 <= w < string_views(selected@).len() && string_views(selected@)[w] == name@;
                        assert(selected@[w]@ == name@);
                        assert(key_set(selected@).contains(name@));
                    }
                } else {
                    proof {
                        if crate::text::holds_key(selected@, name@) {
                            let w = choose|w: int| 0 <= w < selected@.len() && #[trigger] selected@[w]@ == name@;
                            assert(string_views(selected@)[w] == name@);
                        }
                    }
                    assert(!key_set(selected@).contains(name@));
                }
                i = i + 1;
            }
            assert(text_sources().subrange(0, 4) =~= text_sources());
            Some(out)
        },
    }
}

/// The display snippet for a chunk of text: trimmed, and cut to eighty
/// characters with an ellipsis when longer.
pub open spec fn snippet_of(text: Seq<char>) -> Seq<char> {
    let t = trimmed(text);
    if t.len() <= 80 {
        t
    } else {
        t.subrange(0, 80).push('\u{2026}')
    }
}

/// Cuts chunk text to a short display snippet.
pub fn snippet_text(text: &str) -> (s: String)
    ensures
        s@ == snippet_of(text@),
{
    let t = trim(text);
    let chars = chars_of(t.as_str());
    if chars.len() <= 80 {
        return t;
    }
    let mut cut = string_of_range(&chars, 0, 80);
    push_char(&mut cut, '\u{2026}');
    cut
}


/// Why the image-semantic layer could not run this search.
#[derive(Debug)]
pub enum SemanticMiss {
    NoModel,
    EmptyIndex,
    Unreadable(String),
}

pub open spec fn semantic_note(miss: SemanticMiss) -> Seq<char> {
    match miss {
        SemanticMiss::NoModel => "semantic search unavailable — run `maj model fetch`"@,
        SemanticMiss::EmptyIndex => "semantic index is empty — run `maj index run`"@,
        SemanticMiss::Unreadable(reason) => "semantic index unreadable ("@ + reason@
            + ") — run `maj index run` to rebuild"@,
    }
}

impl SemanticMiss {
    /// The note a search prints for this miss.
    pub fn note(&self) -> (n: String)
        ensures
            n@ == semantic_note(*self),
    {
        match self {
            SemanticMiss::NoModel => "semantic search unavailable — run `maj model fetch`".to_owned(),
            SemanticMiss::EmptyIndex => "semantic index is empty — run `maj index run`".to_owned(),
            SemanticMiss::Unreadable(reason) => {
                let head = cat("semantic index unreadable (", reason.as_str());
                cat(head.as_str(), ") — run `maj index run` to rebuild")
            },
        }
    }
}

/// Why the transcript-semantic layer could not run this search.
#[derive(Debug)]
pub enum TextSemanticMiss {
    NoModel,
    EmptyIndex,
    Unreadable(String),
}

pub open spec fn text_semantic_note(miss: TextSemanticMiss, text_model_tag: Seq<char>) -> Seq<char> {
    match miss {
        TextSemanticMiss::NoModel => "transcript search unavailable — run `maj model fetch --only "@
            + text_model_tag + "`"@,
        TextSemanticMiss::EmptyIndex => "transcript index is empty — run `maj index run`"@,
        TextSemanticMiss::Unreadable(reason) => "transcript index unreadable ("@ + reason@
            + ") — run `maj index run` to rebuild"@,
    }
}

impl TextSemanticMiss {
    /// The note a search prints for this miss; `text_model_tag` names the
    /// text model to fetch.
    pub fn note(&self, text_model_tag: &str) -> (n: String)
        ensures
            n@ == text_semantic_note(*self, text_model_tag@),
    {
        match self {
            TextSemanticMiss::NoModel => {
                let head = cat("transcript search unavailable — run `maj model fetch --only ", text_model_tag);
                cat(head.as_str(), "`")
            },
            TextSemanticMiss::EmptyIndex => "transcript index is empty — run `maj index run`".to_owned(),
            TextSemanticMiss::Unreadable(reason) => {
                let head = cat("transcript index unreadable (", reason.as_str());
                cat(head.as_str(), ") — run `maj index run` to rebuild")
            },
        }
    }
}

pub open spec fn index_run_remedy() -> Seq<char> {
    "run `maj index run`"@
}

/// The remedy a coverage notice names for `source`: the transcript
/// pipeline's `model fetch` command when a model is missing, the describer
/// remedy when captions have no backend, otherwise `maj index run`.
pub open spec fn source_remedy_text(source: Seq<char>, transcript_remedy: Option<Seq<char>>, describer_configured: bool) -> Seq<char> {
    if source == "transcript"@ {
        match transcript_remedy {
            Some(r) => r,
            None => index_run_remedy(),
        }
    } else if source == "caption"@ && !describer_configured {
        crate::index::describer_remedy()
    } else {
        index_run_remedy()
    }
}

/// The remedy a coverage notice names for `source`.
pub fn source_remedy(source: &str, transcript_remedy: Option<String>, describer_configured: bool) -> (r: String)
    ensures
        r@ == source_remedy_text(source@, match transcript_remedy { Some(t) => Some(t@), None => None }, describer_configured),
{
    if str_eq(source, "transcript") {
        match transcript_remedy {
            Some(r) => r,
            None => "run `maj index run`".to_owned(),
        }
    } else if str_eq(source, "caption") && !describer_configured {
        "run `maj describer set` to configure a backend".to_owned()
    } else {
        "run `maj index run`".to_owned()
    }
}

/// One nearest-neighbor hit from the image-vector index.
#[derive(Debug)]
pub struct VectorHit {
    pub asset_hex: String,
    pub kind: String,
    pub ts_ms: i64,
}

/// The asset id an index hit names.
pub open spec fn hit_asset(hex: Seq<char>) -> Seq<char> {
    "xxh3:"@ + hex
}

/// `s` with every repeat after the first dropped.
pub open spec fn first_occurrences(s: Seq<Seq<char>>) -> Seq<Seq<char>>
    decreases s.len(),
{
    if s.len() == 0 {
        s
    } else {
        let rest = first_occurrences(s.drop_last());
        if rest.contains(s.last()) {
            rest
        } else {
            rest.push(s.last())
        }
    }
}

/// The asset of each hit, in order.
pub open spec fn hit_assets(hits: Seq<VectorHit>) -> Seq<Seq<char>> {
    hits.map_values(|h: VectorHit| hit_asset(h.asset_hex@))
}

/// Each asset's first keyframe hit's timestamp, in the order those hits
/// come.
pub open spec fn first_keyframes(hits: Seq<VectorHit>) -> Seq<(Seq<char>, i64)>
    decreases hits.len(),
{
    if hits.len() == 0 {
        Seq::empty()
    } else {
        let rest = first_keyframes(hits.drop_last());
        let h = hits.last();
        if h.kind@ == "keyframe"@ && !(exists|i: int| 0 <= i < rest.len() && #[trigger] rest[i].0 == hit_asset(h.asset_hex@)) {
            rest.push((hit_asset(h.asset_hex@), h.ts_ms))
        } else {
            rest
        }
    }
}

fn index_of_string(v: &Vec<String>, s: &str) -> (r: bool)
    ensures
        r == string_views(v@).contains(s@),
{
    let found = crate::index::contains_string(v, s);
    proof {
        if found {
            let w = choose|w: int| 0 <= w < string_views(v@).len() && string_views(v@)[w] == s@;
        }
    }
    found
}

/// Collapses hits (nearest first) to one rank per asset, keeping each
/// asset's first appearance, and each asset's nearest keyframe timestamp.
pub fn dedupe_hits(hits: &Vec<VectorHit>) -> (r: (Vec<String>, Vec<(String, i64)>))
    ensures
        string_views(r.0@) == first_occurrences(hit_assets(hits@)),
        r.1@.len() == first_keyframes(hits@).len(),
        forall|k: int| 0 <= k < r.1@.len() ==> (#[trigger] r.1@[k]).0@ == first_keyframes(hits@)[k].0
            && r.1@[k].1 == first_keyframes(hits@)[k].1,
{
    let mut ranked: Vec<String> = Vec::new();
    let mut keyframes: Vec<(String, i64)> = Vec::new();
    let mut seen_keyframes: Vec<String> = Vec::new();
    let mut i: usize = 0;
    while i < hits.len()
        invariant
            i <= hits.len(),
            string_views(ranked@) == first_occurrences(hit_assets(hits@.subrange(0, i as int))),
            keyframes.len() == seen_keyframes.len(),
            keyframes@.len() == first_keyframes(hits@.subrange(0, i as int)).len(),
            forall|k: int| 0 <= k < keyframes@.len() ==> (#[trigger] keyframes@[k]).0@ == first_keyframes(hits@.subrange(0, i as int))[k].0
                && keyframes@[k].1 == first_keyframes(hits@.subrange(0, i as int))[k].1
                && seen_keyframes@[k]@ == keyframes@[k].0@,
        decreases hits.len() - i,
    {
        let ghost pre = hits@.subrange(0, i as int);
        let ghost next = hits@.subrange(0, i + 1);
        proof {
            assert(next.drop_last() =~= pre);
            assert(hit_assets(next).drop_last() =~= hit_assets(pre));
            assert(hit_assets(next).last() == hit_asset(hits@[i as int].asset_hex@));
            reveal_strlit("xxh3:");
            reveal_strlit("keyframe");
        }
        let asset = cat("xxh3:", hits[i].asset_hex.as_str());
        if str_eq(hits[i].kind.as_str(), "keyframe") {
            let known = index_of_string(&seen_keyframes, asset.as_str());
            proof {
                let rest = first_keyframes(pre);
                assert((exists|q: int| 0 <= q < rest.len() && #[trigger] rest[q].0 == asset@) == string_views(seen_keyframes@).contains(asset@)) by {
                    if exists|q: int| 0 <= q < rest.len() && #[trigger] rest[q].0 == asset@ {
                        let q = choose|q: int| 0 <= q < rest.len() && #[trigger] rest[q].0 == asset@;
                        assert(keyframes@[q].0@ == rest[q].0);
                        assert(string_views(seen_keyframes@)[q] == asset@);
                    }
                    if string_views(seen_keyframes@).contains(asset@) {
                        let q = choose|q: int| 0 <= q < string_views(seen_keyframes@).len() && string_views(seen_keyframes@)[q] == asset@;
                        assert(keyframes@[q].0@ == rest[q].0);
                        assert(rest[q].0 == asset@);
                    }
                }
            }
            if !known {
                keyframes.push((asset.clone(), hits[i].ts_ms));
                seen_keyframes.push(asset.clone());
            }
        }
        let already = index_of_string(&ranked, asset.as_str());
        if !already {
            ranked.push(asset);
        }
        proof {
            assert(string_views(ranked@) =~= first_occurrences(hit_assets(next)));
        }
        i = i + 1;
    }
    assert(hits@.subrange(0, hits.len() as int) =~= hits@);
    (ranked, keyframes)
}

/// A filter a search narrows its results by.
#[derive(Debug)]
pub enum Filter {
    Tag { value: String, negated: bool },
    Volume { value: String, negated: bool },
    Para { node: String, negated: bool },
    Kind { value: String, negated: bool },
    Online { ids: Vec<String>, want: bool },
    Before(i64),
    After(i64),
}

pub open spec fn unknown_media_kind_message(value: Seq<char>, kinds: Seq<Seq<char>>) -> Seq<char> {
    "unknown kind '"@ + value + "' — one of: "@ + joined(kinds, ", "@)
}

pub open spec fn online_message(value: Seq<char>) -> Seq<char> {
    "online: expects 'yes' or 'no', got '"@ + value + "'"@
}

pub open spec fn negated_date_message(key: Seq<char>) -> Seq<char> {
    "'-"@ + key + ":' has no meaning — use '"@ + (if key == "before"@ {
        "after"@
    } else {
        "before"@
    }) + ":' instead"@
}

pub open spec fn unknown_filter_message(key: Seq<char>) -> Seq<char> {
    "unknown filter '"@ + key + ":'; valid filters: tag, vol/volume, para, kind, online, before, after, in"@
}

/// `r` resolves `f`: against the PARA nodes, the mounted volume ids, the
/// media kind names, and the host's parse of the value as a date (read
/// only for `before`/`after`).
pub open spec fn resolves_filter(
    r: Result<Filter, String>,
    f: RawFilter,
    nodes: Seq<ParaNode>,
    mounted: Seq<String>,
    kinds: Seq<Seq<char>>,
    date: Result<i64, String>,
) -> bool {
    let key = f.key@;
    if key == "tag"@ {
        r matches Ok(Filter::Tag { value, negated }) && value@ == f.value@ && negated == f.negated
    } else if key == "vol"@ || key == "volume"@ {
        r matches Ok(Filter::Volume { value, negated }) && value@ == f.value@ && negated == f.negated
    } else if key == "para"@ {
        match para_resolution(nodes, f.value@) {
            Ok(id) => r matches Ok(Filter::Para { node, negated }) && node@ == id && negated == f.negated,
            Err(m) => r matches Err(e) && e@ == m,
        }
    } else if key == "kind"@ {
        if kinds.contains(f.value@) {
            r matches Ok(Filter::Kind { value, negated }) && value@ == f.value@ && negated == f.negated
        } else {
            r matches Err(e) && e@ == unknown_media_kind_message(f.value@, kinds)
        }
    } else if key == "online"@ {
        if f.value@ == "yes"@ || f.value@ == "no"@ {
            r matches Ok(Filter::Online { ids, want }) && string_views(ids@) == string_views(mounted)
                && want == ((f.value@ == "yes"@) != f.negated)
        } else {
            r matches Err(e) && e@ == online_message(f.value@)
        }
    } else if key == "before"@ || key == "after"@ {
        if f.negated {
            r matches Err(e) && e@ == negated_date_message(key)
        } else {
            match date {
                Err(m) => r matches Err(e) && e@ == m@,
                Ok(ms) => if key == "before"@ {
                    r matches Ok(Filter::Before(b)) && b == ms
                } else {
                    r matches Ok(Filter::After(a)) && a == ms
                },
            }
        }
    } else {
        r matches Err(e) && e@ == unknown_filter_message(key)
    }
}

fn copy_strings(v: &Vec<String>) -> (out: Vec<String>)
    ensures
        string_views(out@) == string_views(v@),
{
    let mut out: Vec<String> = Vec::new();
    let mut i: usize = 0;
    while i < v.len()
        invariant
            i <= v.len(),
            out.len() == i,
            forall|k: int| 0 <= k < i ==> (#[trigger] out@[k])@ == v@[k]@,
        decreases v.len() - i,
    {
        out.push(v[i].clone());
        i = i + 1;
    }
    assert(string_views(out@) =~= string_views(v@));
    out
}

/// Resolves one `key:value` token into the filter it names. `vol` and
/// `volume` both name a volume; `before`/`after` refuse a negation, since
/// there is no negated form.
pub fn resolve_filter(
    f: &RawFilter,
    nodes: &Vec<ParaNode>,
    mounted: &Vec<String>,
    kinds: &Vec<String>,
    date: Result<i64, String>,
) -> (r: Result<Filter, String>)
    ensures
        resolves_filter(r, *f, nodes@, mounted@, string_views(kinds@), date),
{
    let key = f.key.as_str();
    let negated = f.negated;
    if str_eq(key, "tag") {
        return Ok(Filter::Tag { value: f.value.clone(), negated });
    }
    if str_eq(key, "vol") || str_eq(key, "volume") {
        return Ok(Filter::Volume { value: f.value.clone(), negated });
    }
    if str_eq(key, "para") {
        return match resolve_para_node(nodes, f.value.as_str()) {
            Ok(node) => Ok(Filter::Para { node, negated }),
            Err(e) => Err(e),
        };
    }
    if str_eq(key, "kind") {
        if !index_of_string(kinds, f.value.as_str()) {
            let head = cat("unknown kind '", f.value.as_str());
            let head = cat(head.as_str(), "' — one of: ");
            let list = join_strings(kinds, ", ");
            return Err(cat(head.as_str(), list.as_str()));
        }
        return Ok(Filter::Kind { value: f.value.clone(), negated });
    }
    if str_eq(key, "online") {
        let want = if str_eq(f.value.as_str(), "yes") {
            true
        } else if str_eq(f.value.as_str(), "no") {
            false
        } else {
            let head = cat("online: expects 'yes' or 'no', got '", f.value.as_str());
            return Err(cat(head.as_str(), "'"));
        };
        proof {
            reveal_strlit("yes");
            reveal_strlit("no");
        }
        return Ok(Filter::Online { ids: copy_strings(mounted), want: want != negated });
    }
    if str_eq(key, "before") || str_eq(key, "after") {
        if negated {
            let other = if str_eq(key, "before") {
                "after"
            } else {
                "before"
            };
            let head = cat("'-", key);
            let head = cat(head.as_str(), ":' has no meaning — use '");
            let head = cat(head.as_str(), other);
            return Err(cat(head.as_str(), ":' instead"));
        }
        let ms = match date {
            Ok(ms) => ms,
            Err(e) => {
                return Err(e);
            },
        };
        if str_eq(key, "before") {
            return Ok(Filter::Before(ms));
        } else {
            return Ok(Filter::After(ms));
        }
    }
    let head = cat("unknown filter '", key);
    Err(cat(head.as_str(), ":'; valid filters: tag, vol/volume, para, kind, online, before, after, in"))
}


/// One nearest-neighbor hit from the text-chunk index.
#[derive(Debug)]
pub struct TextChunkHit {
    pub asset_hex: String,
    pub source: String,
    pub start_ms: i64,
    pub end_ms: i64,
    pub text: String,
}

/// A text hit's detail as a result row shows it.
#[derive(Debug)]
pub struct TextMeta {
    pub source: String,
    pub locator: i64,
    pub snippet: String,
}

/// The first (nearest) hit for each asset, in the order they come.
pub open spec fn first_chunks(hits: Seq<TextChunkHit>) -> Seq<TextChunkHit>
    decreases hits.len(),
{
    if hits.len() == 0 {
        hits
    } else {
        let rest = first_chunks(hits.drop_last());
        if exists|i: int| 0 <= i < rest.len() && #[trigger] rest[i].asset_hex@ == hits.last().asset_hex@ {
            rest
        } else {
            rest.push(hits.last())
        }
    }
}

/// Collapses chunk hits to one row per asset, keeping the nearest chunk's
/// rank, source, start and snippet.
pub fn dedupe_text_chunk_hits(hits: &Vec<TextChunkHit>) -> (r: Vec<(String, TextMeta)>)
    ensures
        r@.len() == first_chunks(hits@).len(),
        forall|k: int|
            0 <= k < r@.len() ==> {
                let h = first_chunks(hits@)[k];
                &&& (#[trigger] r@[k]).0@ == hit_asset(h.asset_hex@)
                &&& r@[k].1.source@ == h.source@
                &&& r@[k].1.locator == h.start_ms
                &&& r@[k].1.snippet@ == snippet_of(h.text@)
            },
{
    let mut out: Vec<(String, TextMeta)> = Vec::new();
    let mut seen: Vec<String> = Vec::new();
    let mut i: usize = 0;
    while i < hits.len()
        invariant
            i <= hits.len(),
            out.len() == seen.len(),
            out@.len() == first_chunks(hits@.subrange(0, i as int)).len(),
            forall|k: int|
                0 <= k < out@.len() ==> {
                    let h = first_chunks(hits@.subrange(0, i as int))[k];
                    &&& (#[trigger] out@[k]).0@ == hit_asset(h.asset_hex@)
                    &&& out@[k].1.source@ == h.source@
                    &&& out@[k].1.locator == h.start_ms
                    &&& out@[k].1.snippet@ == snippet_of(h.text@)
                    &&& seen@[k]@ == h.asset_hex@
                },
        decreases hits.len() - i,
    {
        let ghost pre = hits@.subrange(0, i as int);
        proof {
            assert(hits@.subrange(0, i + 1).drop_last() =~= pre);
        }
        let h = &hits[i];
        let known = index_of_string(&seen, h.asset_hex.as_str());
        proof {
            let rest = first_chunks(pre);
            assert((exists|q: int| 0 <= q < rest.len() && #[trigger] rest[q].asset_hex@ == h.asset_hex@) == string_views(seen@).contains(h.asset_hex@)) by {
                if exists|q: int| 0 <= q < rest.len() && #[trigger] rest[q].asset_hex@ == h.asset_hex@ {
                    let q = choose|q: int| 0 <= q < rest.len() && #[trigger] rest[q].asset_hex@ == h.asset_hex@;
                    assert(out@[q].0@ == hit_asset(rest[q].asset_hex@));
                    assert(string_views(seen@)[q] == h.asset_hex@);
                }
                if string_views(seen@).contains(h.asset_hex@) {
                    let q = choose|q: int| 0 <= q < string_views(seen@).len() && string_views(seen@)[q] == h.asset_hex@;
                    assert(out@[q].0@ == hit_asset(rest[q].asset_hex@));
                    assert(rest[q].asset_hex@ == h.asset_hex@);
                }
            }
        }
        let ghost old_out = out@;
        let ghost old_seen = seen@;
        if !known {
            let meta = TextMeta { source: h.source.clone(), locator: h.start_ms, snippet: snippet_text(h.text.as_str()) };
            out.push((cat("xxh3:", h.asset_hex.as_str()), meta));
            seen.push(h.asset_hex.clone());
        }
        proof {
            let next = hits@.subrange(0, i + 1);
            let rest = first_chunks(pre);
            assert(next.last() == hits@[i as int]);
            if known {
                assert(first_chunks(next) == rest);
            } else {
                assert(first_chunks(next) == rest.push(hits@[i as int]));
            }
            assert forall|k: int| 0 <= k < out@.len() implies {
                let hh = first_chunks(next)[k];
                &&& (#[trigger] out@[k]).0@ == hit_asset(hh.asset_hex@)
                &&& out@[k].1.source@ == hh.source@
                &&& out@[k].1.locator == hh.start_ms
                &&& out@[k].1.snippet@ == snippet_of(hh.text@)
                &&& seen@[k]@ == hh.asset_hex@
            } by {
                if k < old_out.len() {
                    assert(out@[k] == old_out[k]);
                    assert(seen@[k] == old_seen[k]);
                }
            }
        }
        i = i + 1;
    }
    assert(hits@.subrange(0, hits.len() as int) =~= hits@);
    out
}


/// How many candidates each ranking source fetches: a wider net than
/// `limit` (four times it, saturating) so fusion has headroom past the
/// final cut; with a hard filter present, every ranked match (the vector
/// side at `usize::MAX >> 1`, which a signed 64-bit limit still holds).
pub fn fetch_limits(limit: usize, filtered: bool) -> (r: (usize, usize))
    ensures
        filtered ==> r == (usize::MAX, usize::MAX / 2),
        !filtered ==> r.0 == r.1 && r.0 == if limit * 4 <= usize::MAX {
            (limit * 4) as usize
        } else {
            usize::MAX
        },
{
    if filtered {
        let m: usize = usize::MAX;
        assert(m >> 1usize == m / 2) by (bit_vector);
        (m, m >> 1usize)
    } else {
        let widened = if limit <= usize::MAX / 4 { limit * 4 } else { usize::MAX };
        (widened, widened)
    }
}

/// The four indexed-text sources, in notice order.
pub open spec fn text_source(i: int) -> Seq<char> {
    if i == 0 {
        "transcript"@
    } else if i == 1 {
        "caption"@
    } else if i == 2 {
        "ocr"@
    } else {
        "pdf"@
    }
}

pub open spec fn text_source_label(i: int) -> Seq<char> {
    if i == 0 {
        "transcripts"@
    } else if i == 1 {
        "captions"@
    } else if i == 2 {
        "ocr"@
    } else {
        "pdf"@
    }
}

pub open spec fn text_source_noun(i: int) -> Seq<char> {
    if i == 0 {
        "video/audio assets"@
    } else if i == 1 {
        "image/video/pdf assets"@
    } else if i == 2 {
        "image/video assets"@
    } else {
        "pdf assets"@
    }
}

/// The media kinds the index planner derives source `i`'s text from.
pub open spec fn source_takes_kind(i: int, kind: Seq<char>) -> bool {
    if i == 0 {
        kind == "video"@ || kind == "audio"@
    } else if i == 1 {
        kind == "image"@ || kind == "video"@ || kind == "pdf"@
    } else if i == 2 {
        kind == "image"@ || kind == "video"@
    } else {
        kind == "pdf"@
    }
}

fn text_source_names(i: usize) -> (r: (&'static str, &'static str, &'static str))
    requires
        i < 4,
    ensures
        r.0@ == text_source(i as int),
        r.1@ == text_source_label(i as int),
        r.2@ == text_source_noun(i as int),
{
    if i == 0 {
        ("transcript", "transcripts", "video/audio assets")
    } else if i == 1 {
        ("caption", "captions", "image/video/pdf assets")
    } else if i == 2 {
        ("ocr", "ocr", "image/video assets")
    } else {
        ("pdf", "pdf", "pdf assets")
    }
}

fn takes_kind(i: usize, kind: &str) -> (r: bool)
    requires
        i < 4,
    ensures
        r == source_takes_kind(i as int, kind@),
{
    if i == 0 {
        str_eq(kind, "video") || str_eq(kind, "audio")
    } else if i == 1 {
        str_eq(kind, "image") || str_eq(kind, "video") || str_eq(kind, "pdf")
    } else if i == 2 {
        str_eq(kind, "image") || str_eq(kind, "video")
    } else {
        str_eq(kind, "pdf")
    }
}

/// How many of the first `n` assets (each with the media kind of its first
/// instance) source `i` takes, and how many of those `covered` lists.
pub open spec fn eligible_count(kinds: Seq<(String, String)>, i: int, n: nat) -> nat
    decreases n,
{
    if n == 0 {
        0
    } else {
        eligible_count(kinds, i, (n - 1) as nat) + if source_takes_kind(i, kinds[n - 1].1@) {
            1nat
        } else {
            0nat
        }
    }
}

pub open spec fn covered_count(kinds: Seq<(String, String)>, i: int, covered: Seq<String>, n: nat) -> nat
    decreases n,
{
    if n == 0 {
        0
    } else {
        covered_count(kinds, i, covered, (n - 1) as nat) + if source_takes_kind(i, kinds[n - 1].1@) && (exists|j: int|
            0 <= j < covered.len() && #[trigger] covered[j]@ == kinds[n - 1].0@) {
            1nat
        } else {
            0nat
        }
    }
}

/// One text source whose index does not cover every eligible asset.
#[derive(Debug, Clone, Copy, PartialEq, Eq)]
pub struct CoverageGap {
    pub source: usize,
    pub covered: usize,
    pub eligible: usize,
}

/// Whether a search restricted to `sources` (all when `None`) consults
/// text source `i`.
pub open spec fn consults(sources: Option<Seq<Seq<char>>>, i: int) -> bool {
    match sources {
        None => true,
        Some(s) => s.contains(text_source(i)),
    }
}

/// The coverage gaps among the first `k` text sources, in order: each
/// consulted source with eligible assets, fewer of them indexed than
/// eligible.
pub open spec fn gaps_upto(sources: Option<Seq<Seq<char>>>, kinds: Seq<(String, String)>, covered: Seq<Vec<String>>, k: nat) -> Seq<CoverageGap>
    decreases k,
{
    if k == 0 {
        Seq::empty()
    } else {
        let rest = gaps_upto(sources, kinds, covered, (k - 1) as nat);
        let i = k - 1;
        let e = eligible_count(kinds, i, kinds.len());
        let c = covered_count(kinds, i, covered[i]@, kinds.len());
        if consults(sources, i) && e > 0 && c < e {
            rest.push(CoverageGap { source: i as usize, covered: c as usize, eligible: e as usize })
        } else {
            rest
        }
    }
}

pub(crate) fn listed_in(list: &Vec<String>, a: &str) -> (r: bool)
    ensures
        r == exists|j: int| 0 <= j < list.len() && #[trigger] list@[j]@ == a@,
{
    let mut j: usize = 0;
    while j < list.len()
        invariant
            j <= list.len(),
            forall|k: int| 0 <= k < j ==> list@[k]@ != a@,
        decreases list.len() - j,
    {
        if str_eq(list[j].as_str(), a) {
            return true;
        }
        j = j + 1;
    }
    false
}

/// The text coverage gaps a search consulting `sources` reports, from each
/// catalog asset's media kind (`kinds`, one entry per asset) and the
/// assets each source has indexed text for (`covered[i]` for source `i`).
pub fn coverage_gaps(sources: Option<&Vec<String>>, kinds: &Vec<(String, String)>, covered: &Vec<Vec<String>>) -> (gaps: Vec<CoverageGap>)
    requires
        covered.len() == 4,
    ensures
        gaps@ == gaps_upto(
            match sources {
                Some(s) => Some(string_views(s@)),
                None => None,
            },
            kinds@,
            covered@,
            4,
        ),
{
    let ghost srcs = match sources {
        Some(s) => Some(string_views(s@)),
        None => None,
    };
    let mut gaps: Vec<CoverageGap> = Vec::new();
    let mut i: usize = 0;
    while i < 4
        invariant
            i <= 4,
            covered.len() == 4,
            srcs == (match sources {
                Some(s) => Some(string_views(s@)),
                None => None,
            }),
            gaps@ == gaps_upto(srcs, kinds@, covered@, i as nat),
        decreases 4 - i,
    {
        let (source, _, _) = text_source_names(i);
        let consulted = match sources {
            None => true,
            Some(s) => {
                let found = listed_in(s, source);
                proof {
                    if found {
                        let j = choose|j: int| 0 <= j < s.len() && #[trigger] s@[j]@ == source@;
                        assert(string_views(s@)[j] == text_source(i as int));
                    } else {
                        if string_views(s@).contains(text_source(i as int)) {
                            let j = choose|j: int| 0 <= j < string_views(s@).len() && string_views(s@)[j] == text_source(i as int);
                            assert(s@[j]@ == source@);
                        }
                    }
                }
                found
            },
        };
        let mut e: usize = 0;
        let mut c: usize = 0;
        let mut k: usize = 0;
        while k < kinds.len()
            invariant
                i < 4,
                k <= kinds.len(),
                covered.len() == 4,
                e == eligible_count(kinds@, i as int, k as nat),
                c == covered_count(kinds@, i as int, covered@[i as int]@, k as nat),
                c <= e,
                e <= k,
            decreases kinds.len() - k,
        {
            if takes_kind(i, kinds[k].1.as_str()) {
                e = e + 1;
                if listed_in(&covered[i], kinds[k].0.as_str()) {
                    c = c + 1;
                }
            }
            k = k + 1;
        }
        if consulted && e > 0 && c < e {
            gaps.push(CoverageGap { source: i, covered: c, eligible: e });
        }
        i = i + 1;
    }
    gaps
}

/// The coverage notice a gap earns, naming the command that closes it.
pub fn coverage_notice(gap: CoverageGap, remedy: String) -> (n: TextCoverageNotice)
    requires
        gap.source < 4,
    ensures
        n.source@ == text_source(gap.source as int),
        n.label@ == text_source_label(gap.source as int),
        n.noun@ == text_source_noun(gap.source as int),
        n.covered == gap.covered,
        n.eligible == gap.eligible,
        n.remedy == remedy,
{
    let (source, label, noun) = text_source_names(gap.source);
    TextCoverageNotice {
        label: label.to_owned(),
        noun: noun.to_owned(),
        covered: gap.covered,
        eligible: gap.eligible,
        remedy,
        source: source.to_owned(),
    }
}

/// How many of the first `n` assets the image-semantic layer can embed:
/// images and videos.
pub open spec fn embeddable_count(kinds: Seq<(String, String)>, n: nat) -> nat
    decreases n,
{
    if n == 0 {
        0
    } else {
        embeddable_count(kinds, (n - 1) as nat) + if kinds[n - 1].1@ == "image"@ || kinds[n - 1].1@ == "video"@ {
            1nat
        } else {
            0nat
        }
    }
}

/// How many catalog assets (each with its first instance's media kind)
/// are eligible for semantic embedding.
pub fn eligible_asset_count(kinds: &Vec<(String, String)>) -> (n: u64)
    ensures
        n == embeddable_count(kinds@, kinds@.len()),
{
    let mut n: u64 = 0;
    let mut k: usize = 0;
    while k < kinds.len()
        invariant
            k <= kinds.len(),
            n == embeddable_count(kinds@, k as nat),
            n <= k,
        decreases kinds.len() - k,
    {
        if str_eq(kinds[k].1.as_str(), "image") || str_eq(kinds[k].1.as_str(), "video") {
            n = n + 1;
        }
        k = k + 1;
    }
    n
}


/// A cataloged asset's summary: its name, the volumes holding it (id and
/// label), its tags and its PARA assignment.
#[derive(Debug)]
pub struct AssetSummary {
    pub asset: String,
    pub name: String,
    pub volumes: Vec<(String, String)>,
    pub tags: Vec<String>,
    pub para: Option<String>,
}

/// One ranked hit as a result row shows it, apart from its score.
#[derive(Debug)]
pub struct HitRow {
    pub asset: String,
    /// Whether the catalog has a summary for the asset; when not, the name,
    /// volumes, tags and PARA assignment are empty placeholders.
    pub known: bool,
    pub name: String,
    pub volumes: Vec<VolumeRef>,
    pub tags: Vec<String>,
    pub para: Option<String>,
    pub timestamp_ms: Option<i64>,
    pub source: Option<String>,
    pub locator: Option<i64>,
    pub snippet: Option<String>,
}

/// The index of the first entry, among the first `n`, whose key reads `a`.
pub open spec fn first_summary_for(sums: Seq<AssetSummary>, a: Seq<char>, n: nat) -> Option<int>
    decreases n,
{
    if n == 0 {
        None
    } else {
        match first_summary_for(sums, a, (n - 1) as nat) {
            Some(i) => Some(i),
            None => if sums[n - 1].asset@ == a { Some(n - 1) } else { None },
        }
    }
}

pub open spec fn first_ts_for(kts: Seq<(String, i64)>, a: Seq<char>, n: nat) -> Option<i64>
    decreases n,
{
    if n == 0 {
        None
    } else {
        match first_ts_for(kts, a, (n - 1) as nat) {
            Some(t) => Some(t),
            None => if kts[n - 1].0@ == a { Some(kts[n - 1].1) } else { None },
        }
    }
}

pub open spec fn first_meta_for(metas: Seq<(String, TextMeta)>, a: Seq<char>, n: nat) -> Option<int>
    decreases n,
{
    if n == 0 {
        None
    } else {
        match first_meta_for(metas, a, (n - 1) as nat) {
            Some(i) => Some(i),
            None => if metas[n - 1].0@ == a { Some(n - 1) } else { None },
        }
    }
}

pub open spec fn opt_view(o: Option<String>) -> Option<Seq<char>> {
    match o {
        Some(s) => Some(s@),
        None => None,
    }
}

/// A volume reference as plain values.
pub open spec fn volume_ref_views(v: Seq<VolumeRef>) -> Seq<(Seq<char>, Seq<char>, bool)> {
    v.map_values(|r: VolumeRef| (r.id@, r.label@, r.online))
}

/// A summary's volumes with whether each is mounted now.
pub open spec fn summary_volumes(vols: Seq<(String, String)>, mounted: Seq<String>) -> Seq<(Seq<char>, Seq<char>, bool)> {
    vols.map_values(
        |v: (String, String)| (v.0@, v.1@, exists|j: int| 0 <= j < mounted.len() && #[trigger] mounted[j]@ == v.0@),
    )
}

/// Row `h` is the `i`-th ranked hit joined with its asset's summary, its
/// keyframe timestamp, and, for the asset's first rank, its text detail.
pub open spec fn is_hit_row(
    h: HitRow,
    ranked: Seq<String>,
    i: int,
    sums: Seq<AssetSummary>,
    mounted: Seq<String>,
    kts: Seq<(String, i64)>,
    metas: Seq<(String, TextMeta)>,
) -> bool {
    let a = ranked[i]@;
    &&& h.asset@ == a
    &&& h.known == first_summary_for(sums, a, sums.len()) is Some
    &&& match first_summary_for(sums, a, sums.len()) {
        Some(s) => {
            &&& h.name@ == sums[s].name@
            &&& volume_ref_views(h.volumes@) == summary_volumes(sums[s].volumes@, mounted)
            &&& string_views(h.tags@) == string_views(sums[s].tags@)
            &&& opt_view(h.para) == opt_view(sums[s].para)
        },
        None => {
            &&& h.name@.len() == 0
            &&& h.volumes@.len() == 0
            &&& h.tags@.len() == 0
            &&& h.para is None
        },
    }
    &&& h.timestamp_ms == first_ts_for(kts, a, kts.len())
    &&& match first_meta_for(metas, a, metas.len()) {
        Some(m) => if exists|j: int| 0 <= j < i && #[trigger] ranked[j]@ == a {
            h.source is None && h.locator is None && h.snippet is None
        } else {
            &&& opt_view(h.source) == Some(metas[m].1.source@)
            &&& h.locator == Some(metas[m].1.locator)
            &&& opt_view(h.snippet) == Some(metas[m].1.snippet@)
        },
        None => h.source is None && h.locator is None && h.snippet is None,
    }
}

proof fn lemma_first_summary_sticks(sums: Seq<AssetSummary>, a: Seq<char>, k: nat, n: nat)
    requires
        k <= n,
        first_summary_for(sums, a, k) is Some,
    ensures
        first_summary_for(sums, a, n) == first_summary_for(sums, a, k),
    decreases n - k,
{
    if n > k {
        lemma_first_summary_sticks(sums, a, k, (n - 1) as nat);
    }
}

proof fn lemma_first_ts_sticks(kts: Seq<(String, i64)>, a: Seq<char>, k: nat, n: nat)
    requires
        k <= n,
        first_ts_for(kts, a, k) is Some,
    ensures
        first_ts_for(kts, a, n) == first_ts_for(kts, a, k),
    decreases n - k,
{
    if n > k {
        lemma_first_ts_sticks(kts, a, k, (n - 1) as nat);
    }
}

proof fn lemma_first_meta_sticks(metas: Seq<(String, TextMeta)>, a: Seq<char>, k: nat, n: nat)
    requires
        k <= n,
        first_meta_for(metas, a, k) is Some,
    ensures
        first_meta_for(metas, a, n) == first_meta_for(metas, a, k),
    decreases n - k,
{
    if n > k {
        lemma_first_meta_sticks(metas, a, k, (n - 1) as nat);
    }
}

fn find_summary(sums: &Vec<AssetSummary>, a: &str) -> (r: Option<usize>)
    ensures
        r matches Some(i) ==> i < sums.len(),
        match (r, first_summary_for(sums@, a@, sums@.len())) {
            (Some(x), Some(y)) => x == y,
            (None, None) => true,
            _ => false,
        },
{
    let mut i: usize = 0;
    while i < sums.len()
        invariant
            i <= sums.len(),
            first_summary_for(sums@, a@, i as nat) is None,
        decreases sums.len() - i,
    {
        if str_eq(sums[i].asset.as_str(), a) {
            proof {
                lemma_first_summary_sticks(sums@, a@, (i + 1) as nat, sums@.len());
            }
            return Some(i);
        }
        i = i + 1;
    }
    None
}

fn find_ts(kts: &Vec<(String, i64)>, a: &str) -> (r: Option<i64>)
    ensures
        r == first_ts_for(kts@, a@, kts@.len()),
{
    let mut i: usize = 0;
    while i < kts.len()
        invariant
            i <= kts.len(),
            first_ts_for(kts@, a@, i as nat) is None,
        decreases kts.len() - i,
    {
        if str_eq(kts[i].0.as_str(), a) {
            proof {
                lemma_first_ts_sticks(kts@, a@, (i + 1) as nat, kts@.len());
            }
            return Some(kts[i].1);
        }
        i = i + 1;
    }
    None
}

fn find_meta(metas: &Vec<(String, TextMeta)>, a: &str) -> (r: Option<usize>)
    ensures
        r matches Some(i) ==> i < metas.len(),
        match (r, first_meta_for(metas@, a@, metas@.len())) {
            (Some(x), Some(y)) => x == y,
            (None, None) => true,
            _ => false,
        },
{
    let mut i: usize = 0;
    while i < metas.len()
        invariant
            i <= metas.len(),
            first_meta_for(metas@, a@, i as nat) is None,
        decreases metas.len() - i,
    {
        if str_eq(metas[i].0.as_str(), a) {
            proof {
                lemma_first_meta_sticks(metas@, a@, (i + 1) as nat, metas@.len());
            }
            return Some(i);
        }
        i = i + 1;
    }
    None
}

fn mounted_now(mounted: &Vec<String>, id: &str) -> (r: bool)
    ensures
        r == exists|j: int| 0 <= j < mounted.len() && #[trigger] mounted@[j]@ == id@,
{
    let mut j: usize = 0;
    while j < mounted.len()
        invariant
            j <= mounted.len(),
            forall|k: int| 0 <= k < j ==> mounted@[k]@ != id@,
        decreases mounted.len() - j,
    {
        if str_eq(mounted[j].as_str(), id) {
            return true;
        }
        j = j + 1;
    }
    false
}

fn volume_refs(vols: &Vec<(String, String)>, mounted: &Vec<String>) -> (out: Vec<VolumeRef>)
    ensures
        volume_ref_views(out@) == summary_volumes(vols@, mounted@),
{
    let mut out: Vec<VolumeRef> = Vec::new();
    let mut i: usize = 0;
    while i < vols.len()
        invariant
            i <= vols.len(),
            volume_ref_views(out@) == summary_volumes(vols@.subrange(0, i as int), mounted@),
        decreases vols.len() - i,
    {
        let online = mounted_now(mounted, vols[i].0.as_str());
        let ghost before = out@;
        out.push(VolumeRef { id: vols[i].0.clone(), label: vols[i].1.clone(), online });
        proof {
            assert(volume_ref_views(out@) =~= volume_ref_views(before).push((vols@[i as int].0@, vols@[i as int].1@, online)));
            assert(summary_volumes(vols@.subrange(0, i + 1), mounted@) =~= summary_volumes(vols@.subrange(0, i as int), mounted@).push(
                (vols@[i as int].0@, vols@[i as int].1@, online),
            ));
        }
        i = i + 1;
    }
    assert(vols@.subrange(0, vols.len() as int) =~= vols@);
    out
}

fn copy_string_list(v: &Vec<String>) -> (out: Vec<String>)
    ensures
        string_views(out@) == string_views(v@),
{
    let mut out: Vec<String> = Vec::new();
    let mut i: usize = 0;
    while i < v.len()
        invariant
            i <= v.len(),
            out@ == v@.subrange(0, i as int),
        decreases v.len() - i,
    {
        out.push(v[i].clone());
        i = i + 1;
        assert(out@ =~= v@.subrange(0, i as int));
    }
    assert(v@.subrange(0, v.len() as int) =~= v@);
    out
}

fn ranked_before(ranked: &Vec<String>, i: usize) -> (r: bool)
    requires
        i < ranked.len(),
    ensures
        r == exists|j: int| 0 <= j < i && #[trigger] ranked@[j]@ == ranked@[i as int]@,
{
    let mut j: usize = 0;
    while j < i
        invariant
            j <= i,
            i < ranked.len(),
            forall|k: int| 0 <= k < j ==> ranked@[k]@ != ranked@[i as int]@,
        decreases i - j,
    {
        if str_eq(ranked[j].as_str(), ranked[i].as_str()) {
            return true;
        }
        j = j + 1;
    }
    false
}

/// The result rows of ranked hits, in rank order: each hit joined with its
/// asset's catalog summary (placeholders, and `known` false, when the
/// catalog has none), its volumes marked online when mounted, its nearest
/// keyframe timestamp, and its text detail, given to its first rank only.
pub fn build_hits(
    ranked: &Vec<String>,
    sums: &Vec<AssetSummary>,
    mounted: &Vec<String>,
    kts: &Vec<(String, i64)>,
    metas: &Vec<(String, TextMeta)>,
) -> (hits: Vec<HitRow>)
    ensures
        hits.len() == ranked.len(),
        forall|i: int| 0 <= i < hits.len() ==> is_hit_row(#[trigger] hits@[i], ranked@, i, sums@, mounted@, kts@, metas@),
{
    let mut hits: Vec<HitRow> = Vec::new();
    let mut i: usize = 0;
    while i < ranked.len()
        invariant
            i <= ranked.len(),
            hits.len() == i,
            forall|k: int| 0 <= k < i ==> is_hit_row(#[trigger] hits@[k], ranked@, k, sums@, mounted@, kts@, metas@),
        decreases ranked.len() - i,
    {
        let a = ranked[i].as_str();
        let (known, name, volumes, tags, para) = match find_summary(sums, a) {
            Some(s) => {
                let sm = &sums[s];
                (true, sm.name.clone(), volume_refs(&sm.volumes, mounted), copy_string_list(&sm.tags), sm.para.clone())
            },
            None => (false, String::new(), Vec::new(), Vec::new(), None),
        };
        let timestamp_ms = find_ts(kts, a);
        let (source, locator, snippet) = match find_meta(metas, a) {
            Some(m) => {
                if ranked_before(ranked, i) {
                    (None, None, None)
                } else {
                    let meta = &metas[m].1;
                    (Some(meta.source.clone()), Some(meta.locator), Some(meta.snippet.clone()))
                }
            },
            None => (None, None, None),
        };
        let h = HitRow {
            asset: ranked[i].clone(),
            known,
            name,
            volumes,
            tags,
            para,
            timestamp_ms,
            source,
            locator,
            snippet,
        };
        proof {
            assert(is_hit_row(h, ranked@, i as int, sums@, mounted@, kts@, metas@));
        }
        hits.push(h);
        i = i + 1;
    }
    hits
}

/// The text detail of the ranked assets: the full-text row where there is
/// one (its snippet highlights the actual match), else the nearest
/// transcript chunk.
pub open spec fn merged_meta(fts: Seq<(String, TextMeta)>, chunks: Seq<(String, TextMeta)>, n: nat) -> Seq<(String, TextMeta)>
    decreases n,
{
    if n == 0 {
        fts
    } else {
        let rest = merged_meta(fts, chunks, (n - 1) as nat);
        if exists|j: int| 0 <= j < rest.len() && #[trigger] rest[j].0@ == chunks[n - 1].0@ {
            rest
        } else {
            rest.push(chunks[n - 1])
        }
    }
}

/// Merges the chunk details under the full-text ones: a chunk's detail
/// is kept only for an asset with none yet.
pub fn merge_text_meta(fts: Vec<(String, TextMeta)>, chunks: Vec<(String, TextMeta)>) -> (out: Vec<(String, TextMeta)>)
    ensures
        out@ == merged_meta(fts@, chunks@, chunks@.len()),
{
    let ghost all = chunks@;
    let total = chunks.len();
    let mut out = fts;
    let ghost f0 = out@;
    let mut rest = chunks;
    let mut k: usize = 0;
    while rest.len() > 0
        invariant
            k + rest.len() == all.len(),
            all.len() == total,
            rest@ == all.subrange(k as int, all.len() as int),
            out@ == merged_meta(f0, all, k as nat),
        decreases rest.len(),
    {
        let c = rest.remove(0);
        assert(c == all[k as int]);
        let mut seen = false;
        let mut j: usize = 0;
        while j < out.len()
            invariant
                j <= out.len(),
                !seen ==> forall|q: int| 0 <= q < j ==> out@[q].0@ != c.0@,
                seen ==> exists|q: int| 0 <= q < out.len() && #[trigger] out@[q].0@ == c.0@,
            decreases out.len() - j,
        {
            if str_eq(out[j].0.as_str(), c.0.as_str()) {
                seen = true;
            }
            j = j + 1;
        }
        if !seen {
            out.push(c);
        }
        k = k + 1;
    }
    out
}

/// Whether the hard filter lets `a` through: every asset when there is no
/// filter, else only the assets the filter set lists.
pub open spec fn filter_allows(allowed: Option<Seq<String>>, a: Seq<char>) -> bool {
    match allowed {
        None => true,
        Some(set) => lists_id(set, a),
    }
}

/// Whether `set` holds the asset id `a`.
pub open spec fn lists_id(set: Seq<String>, a: Seq<char>) -> bool {
    exists|j: int| 0 <= j < set.len() && #[trigger] set[j]@ == a
}

/// The entries of `list` the filter lets through, in order.
pub open spec fn filtered(list: Seq<String>, allowed: Option<Seq<String>>) -> Seq<Seq<char>>
    decreases list.len(),
{
    if list.len() == 0 {
        Seq::empty()
    } else {
        let rest = filtered(list.drop_last(), allowed);
        if filter_allows(allowed, list.last()@) {
            rest.push(list.last()@)
        } else {
            rest
        }
    }
}

/// The positions in `list` of the entries the filter lets through, in order.
pub open spec fn filtered_positions(list: Seq<String>, allowed: Option<Seq<String>>) -> Seq<int>
    decreases list.len(),
{
    if list.len() == 0 {
        Seq::empty()
    } else {
        let rest = filtered_positions(list.drop_last(), allowed);
        if filter_allows(allowed, list.last()@) {
            rest.push(list.len() - 1)
        } else {
            rest
        }
    }
}

/// The semantic lists after filtering, the lists left empty dropped.
pub open spec fn filtered_semantic(lists: Seq<Vec<String>>, allowed: Option<Seq<String>>) -> Seq<Seq<Seq<char>>>
    decreases lists.len(),
{
    if lists.len() == 0 {
        Seq::empty()
    } else {
        let rest = filtered_semantic(lists.drop_last(), allowed);
        let f = filtered(lists.last()@, allowed);
        if f.len() > 0 {
            rest.push(f)
        } else {
            rest
        }
    }
}

/// The lists rank fusion merges: the filtered name and text hits, each when
/// not empty, then the non-empty filtered semantic lists.
pub open spec fn fusion_lists(name: Seq<String>, text: Seq<String>, semantic: Seq<Vec<String>>, allowed: Option<Seq<String>>) -> Seq<Seq<Seq<char>>> {
    let n = filtered(name, allowed);
    let t = filtered(text, allowed);
    let head: Seq<Seq<Seq<char>>> = if n.len() > 0 { seq![n] } else { Seq::empty() };
    let head2 = if t.len() > 0 { head.push(t) } else { head };
    head2 + filtered_semantic(semantic, allowed)
}

/// How a search's ranked lists are combined, every list first cut down to
/// the hard filter: when nothing but name hits survives, the name ranking
/// itself (its surviving positions, so their scores and order carry over,
/// cut at the limit); otherwise the surviving lists, for rank fusion.
#[derive(Debug)]
pub enum FusePlan {
    NameOnly(Vec<usize>),
    Fuse(Vec<Vec<String>>),
}

/// The hard filter as a value: none, or the listed asset ids.
pub open spec fn allowed_view(allowed: Option<&Vec<String>>) -> Option<Seq<String>> {
    match allowed {
        Some(v) => Some(v@),
        None => None,
    }
}

fn passes(allowed: Option<&Vec<String>>, a: &str) -> (r: bool)
    ensures
        r == filter_allows(allowed_view(allowed), a@),
{
    match allowed {
        None => {
            true
        },
        Some(set) => {
            let r = listed_in(set, a);
            proof {
                assert(allowed_view(allowed) == Some(set@));
                if r {
                    let j = choose|j: int| 0 <= j < set.len() && #[trigger] set@[j]@ == a@;
                    assert(set@[j]@ == a@);
                    assert(lists_id(set@, a@));
                }
            }
            r
        },
    }
}

/// The entries of `list` that pass the hard filter, in order.
pub fn filter_hits(list: &Vec<String>, allowed: Option<&Vec<String>>) -> (out: Vec<String>)
    ensures
        string_views(out@) == filtered(list@, allowed_view(allowed)),
{
    let mut out: Vec<String> = Vec::new();
    let mut i: usize = 0;
    while i < list.len()
        invariant
            i <= list.len(),
            string_views(out@) == filtered(list@.subrange(0, i as int), allowed_view(allowed)),
        decreases list.len() - i,
    {
        let ghost before = out@;
        let keep = passes(allowed, list[i].as_str());
        if keep {
            out.push(list[i].clone());
        }
        proof {
            let pre = list@.subrange(0, i + 1);
            assert(pre.drop_last() =~= list@.subrange(0, i as int));
            assert(pre.last() == list@[i as int]);
            if keep {
                assert(string_views(out@) =~= string_views(before).push(list@[i as int]@));
            } else {
                assert(out@ == before);
            }
        }
        i = i + 1;
    }
    assert(list@.subrange(0, list.len() as int) =~= list@);
    out
}

fn filter_positions(list: &Vec<String>, allowed: Option<&Vec<String>>, limit: usize) -> (out: Vec<usize>)
    ensures
        out@.map_values(|p: usize| p as int) == filtered_positions(list@, allowed_view(allowed)).take(
            vstd::math::min(limit as int, filtered_positions(list@, allowed_view(allowed)).len() as int),
        ),
{
    let ghost all = filtered_positions(list@, allowed_view(allowed));
    let mut out: Vec<usize> = Vec::new();
    let mut i: usize = 0;
    while i < list.len() && out.len() < limit
        invariant
            i <= list.len(),
            out.len() <= limit,
            all == filtered_positions(list@, allowed_view(allowed)),
            out@.map_values(|p: usize| p as int) == filtered_positions(list@.subrange(0, i as int), allowed_view(allowed)),
        decreases list.len() - i,
    {
        let ghost before = out@;
        let keep = passes(allowed, list[i].as_str());
        if keep {
            out.push(i);
        }
        proof {
            let pre = list@.subrange(0, i + 1);
            assert(pre.drop_last() =~= list@.subrange(0, i as int));
            assert(pre.last() == list@[i as int]);
            if keep {
                assert(out@.map_values(|p: usize| p as int) =~= before.map_values(|p: usize| p as int).push(i as int));
            } else {
                assert(out@ == before);
            }
        }
        i = i + 1;
    }
    proof {
        lemma_positions_prefix(list@, allowed_view(allowed), i as int);
        if i == list.len() {
            assert(list@.subrange(0, i as int) =~= list@);
        }
    }
    out
}

/// Filtering a longer prefix only appends positions: the positions of the
/// first `i` entries are a prefix of those of the whole list.
proof fn lemma_positions_prefix(list: Seq<String>, allowed: Option<Seq<String>>, i: int)
    requires
        0 <= i <= list.len(),
    ensures
        filtered_positions(list.subrange(0, i), allowed).len() <= filtered_positions(list, allowed).len(),
        filtered_positions(list.subrange(0, i), allowed) =~= filtered_positions(list, allowed).take(
            filtered_positions(list.subrange(0, i), allowed).len() as int,
        ),
    decreases list.len() - i,
{
    if i == list.len() {
        assert(list.subrange(0, i) =~= list);
    } else {
        lemma_positions_prefix(list, allowed, i + 1);
        let pre = list.subrange(0, i + 1);
        assert(pre.drop_last() =~= list.subrange(0, i));
    }
}

/// Combines a search's ranked lists under the hard filter `allowed`: the
/// name hits, the text hits and the semantic lists (asset ids, best
/// first), each cut down to the assets the filter lets through.
pub fn fuse_plan(
    name: &Vec<String>,
    text: &Vec<String>,
    semantic: &Vec<Vec<String>>,
    allowed: Option<&Vec<String>>,
    limit: usize,
) -> (plan: FusePlan)
    ensures
        ({
            let a = allowed_view(allowed);
            let positions = filtered_positions(name@, a);
            if filtered(text@, a).len() == 0 && filtered_semantic(semantic@, a).len() == 0 {
                plan matches FusePlan::NameOnly(ps) && ps@.map_values(|p: usize| p as int)
                    == positions.take(vstd::math::min(limit as int, positions.len() as int))
            } else {
                plan matches FusePlan::Fuse(lists) && lists@.map_values(|l: Vec<String>| string_views(l@))
                    == fusion_lists(name@, text@, semantic@, a)
            }
        }),
{
    let ghost a = allowed_view(allowed);
    let t = filter_hits(text, allowed);
    let mut sem: Vec<Vec<String>> = Vec::new();
    let mut i: usize = 0;
    while i < semantic.len()
        invariant
            i <= semantic.len(),
            a == allowed_view(allowed),
            sem@.map_values(|l: Vec<String>| string_views(l@)) == filtered_semantic(semantic@.subrange(0, i as int), a),
        decreases semantic.len() - i,
    {
        let ghost before = sem@;
        let f = filter_hits(&semantic[i], allowed);
        let nonempty = f.len() > 0;
        if nonempty {
            sem.push(f);
        }
        proof {
            let pre = semantic@.subrange(0, i + 1);
            assert(pre.drop_last() =~= semantic@.subrange(0, i as int));
            assert(pre.last() == semantic@[i as int]);
            if nonempty {
                assert(sem@.map_values(|l: Vec<String>| string_views(l@)) =~= before.map_values(
                    |l: Vec<String>| string_views(l@),
                ).push(string_views(f@)));
            } else {
                assert(sem@ == before);
            }
        }
        i = i + 1;
    }
    assert(semantic@.subrange(0, semantic.len() as int) =~= semantic@);
    if t.len() == 0 && sem.len() == 0 {
        return FusePlan::NameOnly(filter_positions(name, allowed, limit));
    }
    let n = filter_hits(name, allowed);
    let mut lists: Vec<Vec<String>> = Vec::new();
    if n.len() > 0 {
        lists.push(n);
    }
    if t.len() > 0 {
        lists.push(t);
    }
    let ghost head = lists@.map_values(|l: Vec<String>| string_views(l@));
    proof {
        let fn_ = filtered(name@, a);
        let ft = filtered(text@, a);
        let h: Seq<Seq<Seq<char>>> = if fn_.len() > 0 { seq![fn_] } else { Seq::empty() };
        let h2 = if ft.len() > 0 { h.push(ft) } else { h };
        assert(head =~= h2);
    }
    let mut k: usize = 0;
    while k < sem.len()
        invariant
            k <= sem.len(),
            lists@.map_values(|l: Vec<String>| string_views(l@)) == head + sem@.map_values(
                |l: Vec<String>| string_views(l@),
            ).take(k as int),
        decreases sem.len() - k,
    {
        let ghost before = lists@;
        lists.push(sem[k].clone());
        proof {
            assert(sem@.map_values(|l: Vec<String>| string_views(l@)).take(k + 1) =~= sem@.map_values(
                |l: Vec<String>| string_views(l@),
            ).take(k as int).push(string_views(sem@[k as int]@)));
            assert(lists@.map_values(|l: Vec<String>| string_views(l@)) =~= before.map_values(
                |l: Vec<String>| string_views(l@),
            ).push(string_views(sem@[k as int]@)));
        }
        k = k + 1;
    }
    assert(sem@.map_values(|l: Vec<String>| string_views(l@)).take(sem.len() as int) =~= sem@.map_values(
        |l: Vec<String>| string_views(l@),
    ));
    FusePlan::Fuse(lists)
}

proof fn lemma_filtered_allowed(list: Seq<String>, allowed: Option<Seq<String>>)
    ensures
        forall|k: int| 0 <= k < filtered(list, allowed).len() ==> filter_allows(allowed, #[trigger] filtered(list, allowed)[k]),
    decreases list.len(),
{
    if list.len() > 0 {
        lemma_filtered_allowed(list.drop_last(), allowed);
        let rest = filtered(list.drop_last(), allowed);
        let f = filtered(list, allowed);
        assert forall|k: int| 0 <= k < f.len() implies filter_allows(allowed, #[trigger] f[k]) by {
            if k < rest.len() {
                assert(f[k] == rest[k]);
            }
        }
    }
}

proof fn lemma_positions_allowed(list: Seq<String>, allowed: Option<Seq<String>>)
    ensures
        forall|k: int| 0 <= k < filtered_positions(list, allowed).len() ==> {
            let p = #[trigger] filtered_positions(list, allowed)[k];
            0 <= p < list.len() && filter_allows(allowed, list[p]@)
        },
    decreases list.len(),
{
    if list.len() > 0 {
        lemma_positions_allowed(list.drop_last(), allowed);
        let rest = filtered_positions(list.drop_last(), allowed);
        assert forall|k: int| 0 <= k < rest.len() implies list.drop_last()[rest[k]] == list[rest[k]] by {}
    }
}

proof fn lemma_semantic_allowed(lists: Seq<Vec<String>>, allowed: Option<Seq<String>>)
    ensures
        forall|l: int, k: int|
            0 <= l < filtered_semantic(lists, allowed).len() && 0 <= k < filtered_semantic(lists, allowed)[l].len()
                ==> filter_allows(allowed, #[trigger] filtered_semantic(lists, allowed)[l][k]),
    decreases lists.len(),
{
    if lists.len() > 0 {
        lemma_semantic_allowed(lists.drop_last(), allowed);
        lemma_filtered_allowed(lists.last()@, allowed);
        let rest = filtered_semantic(lists.drop_last(), allowed);
        let f = filtered_semantic(lists, allowed);
        assert forall|l: int, k: int| 0 <= l < f.len() && 0 <= k < f[l].len() implies filter_allows(allowed, #[trigger] f[l][k]) by {
            if l < rest.len() {
                assert(f[l] == rest[l]);
            } else {
                assert(f[l] == filtered(lists.last()@, allowed));
            }
        }
    }
}

/// The hard filter holds through fusion: whichever list a hit arrived on,
/// a hit the filter excludes is in none of the lists handed to rank
/// fusion, and no name hit it excludes is kept when name hits stand alone.
pub proof fn fusion_never_keeps_a_filtered_hit(
    name: Seq<String>,
    text: Seq<String>,
    semantic: Seq<Vec<String>>,
    allowed: Option<Seq<String>>,
)
    ensures
        forall|l: int, k: int|
            0 <= l < fusion_lists(name, text, semantic, allowed).len() && 0 <= k < fusion_lists(name, text, semantic, allowed)[l].len()
                ==> filter_allows(allowed, #[trigger] fusion_lists(name, text, semantic, allowed)[l][k]),
        forall|k: int| 0 <= k < filtered_positions(name, allowed).len() ==> filter_allows(
            allowed,
            name[#[trigger] filtered_positions(name, allowed)[k]]@,
        ),
{
    lemma_filtered_allowed(name, allowed);
    lemma_filtered_allowed(text, allowed);
    lemma_semantic_allowed(semantic, allowed);
    lemma_positions_allowed(name, allowed);
    let n = filtered(name, allowed);
    let t = filtered(text, allowed);
    let head: Seq<Seq<Seq<char>>> = if n.len() > 0 { seq![n] } else { Seq::empty() };
    let head2 = if t.len() > 0 { head.push(t) } else { head };
    let all = fusion_lists(name, text, semantic, allowed);
    let sem = filtered_semantic(semantic, allowed);
    assert forall|l: int, k: int| 0 <= l < all.len() && 0 <= k < all[l].len() implies filter_allows(allowed, #[trigger] all[l][k]) by {
        if l < head2.len() {
            if n.len() > 0 && l == 0 {
                assert(all[l] == n);
            } else {
                assert(all[l] == t);
            }
        } else {
            assert(all[l] == sem[l - head2.len()]);
        }
    }
}

/// The query a search request runs: its literal query, else the query
/// saved under its `--saved` name (`stored`, what the catalog holds under
/// that name), refusing an empty `--save` name first.
pub open spec fn requested_query(req: SearchRequest, stored: Option<Seq<char>>) -> Result<Seq<char>, Seq<char>> {
    if req.save matches Some(n) && n@.len() == 0 {
        Err("saved search name must not be empty"@)
    } else {
        match req.query {
            Some(q) => Ok(q@),
            None => match req.saved {
                Some(name) => match stored {
                    Some(q) => Ok(q),
                    None => Err("no saved search named '"@ + name@ + "'"@),
                },
                None => Err("give a query string or --saved <name>"@),
            },
        }
    }
}

/// Resolves the query `req` runs; `stored` is the query the catalog holds
/// under `req.saved`'s name, if any.
pub fn search_query(req: &SearchRequest, stored: Option<String>) -> (r: Result<String, ServiceError>)
    ensures
        match (r, requested_query(*req, match stored { Some(q) => Some(q@), None => None })) {
            (Ok(a), Ok(b)) => a@ == b,
            (Err(ServiceError::Other(a)), Err(b)) => a@ == b,
            _ => false,
        },
{
    match &req.save {
        Some(n) => {
            if n.unicode_len() == 0 {
                return Err(ServiceError::Other("saved search name must not be empty".to_owned()));
            }
        },
        None => {},
    }
    match &req.query {
        Some(q) => Ok(q.clone()),
        None => match &req.saved {
            Some(name) => match stored {
                Some(q) => Ok(q),
                None => {
                    let head = cat("no saved search named '", name.as_str());
                    Err(ServiceError::Other(cat(head.as_str(), "'")))
                },
            },
            None => Err(ServiceError::Other("give a query string or --saved <name>".to_owned())),
        },
    }
}

/// The saved search a finished search records: `req`'s `--save` name with
/// the query it ran, and only when the search itself succeeded, so a query
/// that cannot run is never saved.
pub fn search_to_save(req: &SearchRequest, query: &str, succeeded: bool) -> (r: Option<SavedSearch>)
    ensures
        r is Some <==> succeeded && req.save is Some,
        r matches Some(s) ==> req.save matches Some(n) && s.name@ == n@ && s.query@ == query@,
{
    if !succeeded {
        return None;
    }
    match &req.save {
        Some(n) => Some(SavedSearch { name: n.clone(), query: query.to_owned() }),
        None => None,
    }
}

/// `maj searches rm`: the saved search to remove, or why not — an empty
/// name, or one the catalog holds no saved search under (`known` says
/// whether it does).
pub fn saved_search_removal(name: &str, known: bool) -> (r: Result<String, ServiceError>)
    ensures
        name@.len() == 0 ==> (r matches Err(ServiceError::Other(m)) && m@ == "saved search name must not be empty"@),
        name@.len() > 0 && !known ==> (r matches Err(ServiceError::Other(m)) && m@ == "no saved search named '"@
            + name@ + "'"@),
        name@.len() > 0 && known ==> (r matches Ok(n) && n@ == name@),
{
    if name.unicode_len() == 0 {
        return Err(ServiceError::Other("saved search name must not be empty".to_owned()));
    }
    if !known {
        let head = cat("no saved search named '", name);
        return Err(ServiceError::Other(cat(head.as_str(), "'")));
    }
    Ok(name.to_owned())
}

} // verus!
