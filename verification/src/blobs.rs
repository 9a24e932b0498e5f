//! Serving derived blobs to a client: which blob a request names, how a
//! keyframe image is addressed by its index into the keyframe manifest
//! rather than by timestamp, and what each failure reports. A malformed or
//! out-of-range index is refused before it can influence which file is
//! read.
use vstd::prelude::*;
use crate::heal::{all_digits, digits_value};
use crate::text::{cat, chars_of, decimal, push_decimal, string_of_range};

verus! {

/// A derived blob kind servable as-is.
#[derive(Debug, Clone, Copy, PartialEq, Eq)]
pub enum Kind {
    /// The asset's thumbnail preview.
    Thumb,
    /// The asset's keyframe timestamp manifest.
    Keyframes,
    /// One extracted keyframe image, at a manifest timestamp.
    KeyframeImage { timestamp_ms: u64 },
}

pub open spec fn noun_of(k: Kind) -> Seq<char> {
    match k {
        Kind::Thumb => "thumbnail"@,
        Kind::Keyframes => "keyframe manifest"@,
        Kind::KeyframeImage { .. } => "keyframe image"@,
    }
}

pub open spec fn flag_of(k: Kind) -> Seq<char> {
    match k {
        Kind::Thumb => "thumbs"@,
        Kind::Keyframes => "keyframes"@,
        Kind::KeyframeImage { .. } => "keyframe-images"@,
    }
}

impl Kind {
    /// What this blob is called in a message to a person.
    pub fn noun(self) -> (s: &'static str)
        ensures
            s@ == noun_of(self),
    {
        match self {
            Kind::Thumb => "thumbnail",
            Kind::Keyframes => "keyframe manifest",
            Kind::KeyframeImage { .. } => "keyframe image",
        }
    }

    /// The `maj index run --kinds` value that derives this blob.
    pub fn kinds_flag(self) -> (s: &'static str)
        ensures
            s@ == flag_of(self),
    {
        match self {
            Kind::Thumb => "thumbs",
            Kind::Keyframes => "keyframes",
            Kind::KeyframeImage { .. } => "keyframe-images",
        }
    }
}

/// Why a derived blob could not be handed back: the caller's malformed
/// id or index, a blob not derived yet (with its remedy), a failed read,
/// a corrupt manifest, or an index the manifest has no timestamp at.
#[derive(Debug)]
pub enum BlobError {
    MalformedAssetId { asset_id: String },
    NotDerived { asset_id: String, kind: Kind },
    Read { kind: Kind, path: String, source: String },
    MalformedManifest { asset_id: String, source: String },
    MalformedKeyframeIndex { asset_id: String, requested: String },
    KeyframeIndexOutOfRange { asset_id: String, index: usize, count: usize },
}

/// The text `format!("{:?}", s)` gives for a string: quoted, with the
/// characters that need it escaped.
pub uninterp spec fn debug_text(s: Seq<char>) -> Seq<char>;

/// `s` as the standard `Debug` formatting writes it.
#[verifier::external_body]
fn debug_quoted(s: &str) -> (q: String)
    ensures
        q@ == debug_text(s@),
{
    format!("{:?}", s)
}

/// The text a blob failure is reported with.
pub open spec fn blob_error_text(e: BlobError) -> Seq<char> {
    match e {
        BlobError::MalformedAssetId { asset_id } => asset_id@ + ": not a valid asset id (expected xxh3:<hex>)"@,
        BlobError::NotDerived { asset_id, kind } => "no "@ + noun_of(kind) + " for "@ + asset_id@
            + " — run `maj index run --kinds "@ + flag_of(kind) + "` to derive it"@,
        BlobError::Read { kind, path, source } => "reading "@ + noun_of(kind) + " blob at "@ + path@ + ": "@
            + source@,
        BlobError::MalformedManifest { asset_id, source } => "keyframe manifest for "@ + asset_id@
            + " is not valid JSON: "@ + source@,
        BlobError::MalformedKeyframeIndex { asset_id, requested } => asset_id@ + ": "@ + debug_text(requested@)
            + " is not a valid keyframe index (expected a whole number)"@,
        BlobError::KeyframeIndexOutOfRange { asset_id, index, count } => asset_id@ + ": no keyframe image at index "@
            + decimal(index as nat) + " ("@ + decimal(count as nat) + " in the manifest)"@,
    }
}

impl BlobError {
    /// The text this failure is reported with.
    pub fn message(&self) -> (m: String)
        ensures
            m@ == blob_error_text(*self),
    {
        match self {
            BlobError::MalformedAssetId { asset_id } => cat(
                asset_id.as_str(),
                ": not a valid asset id (expected xxh3:<hex>)",
            ),
            BlobError::NotDerived { asset_id, kind } => {
                let head = cat("no ", kind.noun());
                let head = cat(head.as_str(), " for ");
                let head = cat(head.as_str(), asset_id.as_str());
                let head = cat(head.as_str(), " — run `maj index run --kinds ");
                let head = cat(head.as_str(), kind.kinds_flag());
                cat(head.as_str(), "` to derive it")
            },
            BlobError::Read { kind, path, source } => {
                let head = cat("reading ", kind.noun());
                let head = cat(head.as_str(), " blob at ");
                let head = cat(head.as_str(), path.as_str());
                let head = cat(head.as_str(), ": ");
                cat(head.as_str(), source.as_str())
            },
            BlobError::MalformedManifest { asset_id, source } => {
                let head = cat("keyframe manifest for ", asset_id.as_str());
                let head = cat(head.as_str(), " is not valid JSON: ");
                cat(head.as_str(), source.as_str())
            },
            BlobError::MalformedKeyframeIndex { asset_id, requested } => {
                let q = debug_quoted(requested.as_str());
                let head = cat(asset_id.as_str(), ": ");
                let head = cat(head.as_str(), q.as_str());
                cat(head.as_str(), " is not a valid keyframe index (expected a whole number)")
            },
            BlobError::KeyframeIndexOutOfRange { asset_id, index, count } => {
                let mut m = cat(asset_id.as_str(), ": no keyframe image at index ");
                push_decimal(&mut m, *index as u64);
                m.append(" (");
                push_decimal(&mut m, *count as u64);
                m.append(" in the manifest)");
                m
            },
        }
    }
}

pub open spec fn is_lower_hex_char(c: char) -> bool {
    ('0' <= c && c <= '9') || ('a' <= c && c <= 'f')
}

/// A well-formed asset id: `xxh3:` then exactly 32 lowercase hex digits.
pub open spec fn well_formed_id(id: Seq<char>) -> bool {
    &&& id.len() == 37
    &&& id.subrange(0, 5) == "xxh3:"@
    &&& forall|i: int| 5 <= i < 37 ==> is_lower_hex_char(#[trigger] id[i])
}

/// Whether `asset_id` is a well-formed `xxh3:<hex>` id, with no
/// filesystem access at all.
pub fn is_well_formed_asset_id(asset_id: &str) -> (r: bool)
    ensures
        r == well_formed_id(asset_id@),
{
    let cs = chars_of(asset_id);
    proof {
        reveal_strlit("xxh3:");
    }
    if cs.len() != 37 {
        return false;
    }
    if !(cs[0] == 'x' && cs[1] == 'x' && cs[2] == 'h' && cs[3] == '3' && cs[4] == ':') {
        proof {
            let p = asset_id@.subrange(0, 5);
            assert(p[0] == cs@[0] && p[1] == cs@[1] && p[2] == cs@[2] && p[3] == cs@[3] && p[4] == cs@[4]);
        }
        return false;
    }
    assert(asset_id@.subrange(0, 5) =~= "xxh3:"@);
    let mut i: usize = 5;
    while i < 37
        invariant
            cs@ == asset_id@,
            cs.len() == 37,
            5 <= i <= 37,
            forall|k: int| 5 <= k < i ==> is_lower_hex_char(#[trigger] asset_id@[k]),
        decreases 37 - i,
    {
        let c = cs[i];
        if !(('0' <= c && c <= '9') || ('a' <= c && c <= 'f')) {
            return false;
        }
        i = i + 1;
    }
    true
}

/// The hex part of a well-formed asset id, or why the id is refused.
pub fn blob_hex(asset_id: &str) -> (r: Result<String, BlobError>)
    ensures
        well_formed_id(asset_id@) ==> (r matches Ok(h) && h@ == asset_id@.subrange(5, 37)),
        !well_formed_id(asset_id@) ==> (r matches Err(BlobError::MalformedAssetId { asset_id: a }) && a@ == asset_id@),
{
    if !is_well_formed_asset_id(asset_id) {
        return Err(BlobError::MalformedAssetId { asset_id: asset_id.to_owned() });
    }
    let cs = chars_of(asset_id);
    Ok(string_of_range(&cs, 5, 37))
}

/// What a failed blob read reports: a blob that is not there has simply
/// not been derived yet, any other failure is the read's.
pub fn read_failure(kind: Kind, asset_id: &str, path: &str, not_found: bool, source: &str) -> (e: BlobError)
    ensures
        not_found ==> (e matches BlobError::NotDerived { asset_id: a, kind: k } && a@ == asset_id@ && k == kind),
        !not_found ==> (e matches BlobError::Read { kind: k, path: p, source: s } && k == kind && p@ == path@
            && s@ == source@),
{
    if not_found {
        BlobError::NotDerived { asset_id: asset_id.to_owned(), kind }
    } else {
        BlobError::Read { kind, path: path.to_owned(), source: source.to_owned() }
    }
}

/// `str::parse::<usize>`: an optional `+`, then decimal digits whose value
/// fits.
pub open spec fn parse_usize(s: Seq<char>) -> Option<usize> {
    let d = if s.len() > 0 && s[0] == '+' { s.drop_first() } else { s };
    if all_digits(d) && digits_value(d) <= usize::MAX {
        Some(digits_value(d) as usize)
    } else {
        None
    }
}

proof fn lemma_digits_value_grows(s: Seq<char>, k: int)
    requires
        0 <= k <= s.len(),
        all_digits(s),
    ensures
        digits_value(s.subrange(0, k)) <= digits_value(s),
    decreases s.len() - k,
{
    if k < s.len() {
        lemma_digits_value_grows(s, k + 1);
        assert(s.subrange(0, k + 1).drop_last() =~= s.subrange(0, k));
    } else {
        assert(s.subrange(0, k) =~= s);
    }
}

/// The keyframe index a request names, parsed as a whole number, or its
/// refusal; nothing is read before this passes.
pub fn keyframe_index(asset_id: &str, index_text: &str) -> (r: Result<usize, BlobError>)
    ensures
        parse_usize(index_text@) matches Some(i) ==> r == Ok::<usize, BlobError>(i),
        parse_usize(index_text@) is None ==> (r matches Err(BlobError::MalformedKeyframeIndex { asset_id: a, requested: q })
            && a@ == asset_id@ && q@ == index_text@),
{
    let cs = chars_of(index_text);
    let n = cs.len();
    let start: usize = if n > 0 && cs[0] == '+' { 1 } else { 0 };
    let ghost d = index_text@.subrange(start as int, n as int);
    proof {
        if start == 1 {
            assert(d =~= index_text@.drop_first());
        } else {
            assert(d =~= index_text@);
        }
    }
    let refuse = BlobError::MalformedKeyframeIndex { asset_id: asset_id.to_owned(), requested: index_text.to_owned() };
    assert(parse_usize(index_text@) == (if all_digits(d) && digits_value(d) <= usize::MAX {
        Some(digits_value(d) as usize)
    } else {
        None
    }));
    if start >= n {
        return Err(refuse);
    }
    let mut acc: usize = 0;
    let mut i: usize = start;
    while i < n
        invariant
            cs@ == index_text@,
            n == cs.len(),
            start <= i <= n,
            d == index_text@.subrange(start as int, n as int),
            acc == digits_value(d.subrange(0, i - start)),
            forall|k: int| 0 <= k < i - start ==> '0' <= #[trigger] d[k] && d[k] <= '9',
            refuse matches BlobError::MalformedKeyframeIndex { asset_id: a, requested: q } && a@ == asset_id@ && q@
                == index_text@,
            parse_usize(index_text@) == (if all_digits(d) && digits_value(d) <= usize::MAX {
                Some(digits_value(d) as usize)
            } else {
                None
            }),
        decreases n - i,
    {
        let c = cs[i];
        if !('0' <= c && c <= '9') {
            proof {
                assert(d[i - start] == c);
                assert(!all_digits(d));
            }
            return Err(refuse);
        }
        let digit: usize = (c as u32 - '0' as u32) as usize;
        proof {
            assert(d.subrange(0, i - start + 1).drop_last() =~= d.subrange(0, i - start));
            assert(d.subrange(0, i - start + 1).last() == c);
        }
        if acc > (usize::MAX - digit) / 10 {
            proof {
                if all_digits(d) {
                    lemma_digits_value_grows(d, i - start + 1);
                }
                assert(acc * 10 + digit > usize::MAX) by (nonlinear_arith)
                    requires
                        acc > (usize::MAX - digit) / 10,
                        digit <= 9,
                ;
            }
            return Err(refuse);
        }
        assert(acc * 10 + digit <= usize::MAX) by (nonlinear_arith)
            requires
                acc <= (usize::MAX - digit) / 10,
                digit <= 9,
        ;
        acc = acc * 10 + digit;
        i = i + 1;
    }
    proof {
        assert(d.subrange(0, n - start) =~= d);
    }
    Ok(acc)
}

/// Resolves a parsed keyframe index against the manifest's timestamps to
/// the image blob it names, or refuses an index past the end.
pub fn read_keyframe_image(asset_id: &str, index: usize, timestamps: &Vec<u64>) -> (r: Result<Kind, BlobError>)
    ensures
        index < timestamps.len() ==> r == Ok::<Kind, BlobError>(Kind::KeyframeImage { timestamp_ms: timestamps@[index as int] }),
        index >= timestamps.len() ==> (r matches Err(BlobError::KeyframeIndexOutOfRange { asset_id: a, index: i, count: c })
            && a@ == asset_id@ && i == index && c == timestamps.len()),
{
    if index < timestamps.len() {
        Ok(Kind::KeyframeImage { timestamp_ms: timestamps[index] })
    } else {
        Err(BlobError::KeyframeIndexOutOfRange { asset_id: asset_id.to_owned(), index, count: timestamps.len() })
    }
}

/// Maps a keyframe manifest that did not parse to its failure.
pub fn read_keyframe_timestamps(asset_id: &str, parsed: Result<Vec<u64>, String>) -> (r: Result<Vec<u64>, BlobError>)
    ensures
        match parsed {
            Ok(ts) => r matches Ok(t) && t@ == ts@,
            Err(why) => r matches Err(BlobError::MalformedManifest { asset_id: a, source: s }) && a@ == asset_id@ && s@
                == why@,
        },
{
    match parsed {
        Ok(ts) => Ok(ts),
        Err(why) => Err(BlobError::MalformedManifest { asset_id: asset_id.to_owned(), source: why }),
    }
}

/// Which indices into the manifest already have an image blob, given
/// whether each one's blob exists; a malformed asset id has none.
pub fn existing_keyframe_image_indices(asset_id: &str, present: &Vec<bool>) -> (out: Vec<usize>)
    ensures
        !well_formed_id(asset_id@) ==> out@.len() == 0,
        well_formed_id(asset_id@) ==> (forall|k: int| 0 <= k < out.len() ==> #[trigger] out@[k] < present.len()
            && present@[out@[k] as int]),
        well_formed_id(asset_id@) ==> (forall|i: int| 0 <= i < present.len() && present@[i] ==> exists|k: int|
            0 <= k < out.len() && #[trigger] out@[k] == i),
        forall|a: int, b: int| 0 <= a < b < out.len() ==> (#[trigger] out@[a]) < (#[trigger] out@[b]),
{
    let mut out: Vec<usize> = Vec::new();
    if !is_well_formed_asset_id(asset_id) {
        return out;
    }
    let mut i: usize = 0;
    while i < present.len()
        invariant
            i <= present.len(),
            forall|k: int| 0 <= k < out.len() ==> #[trigger] out@[k] < i && present@[out@[k] as int],
            forall|j: int| 0 <= j < i && present@[j] ==> exists|k: int| 0 <= k < out.len() && #[trigger] out@[k] == j,
            forall|a: int, b: int| 0 <= a < b < out.len() ==> (#[trigger] out@[a]) < (#[trigger] out@[b]),
        decreases present.len() - i,
    {
        if present[i] {
            let ghost before = out@;
            out.push(i);
            proof {
                assert forall|j: int| 0 <= j < i + 1 && present@[j] implies exists|k: int|
                    0 <= k < out.len() && #[trigger] out@[k] == j by {
                    if j < i {
                        let k = choose|k: int| 0 <= k < before.len() && #[trigger] before[k] == j;
                        assert(out@[k] == before[k]);
                    } else {
                        assert(out@[out.len() - 1] == j);
                    }
                }
            }
        }
        i = i + 1;
    }
    out
}

/// Resolves a keyframe image request from its index text: a text that is
/// not a whole number is refused whatever the manifest holds (the host
/// parses it before reading anything); then a manifest that did not parse
/// is refused; then the index is resolved against the manifest's
/// timestamps.
pub fn resolve_keyframe_image(asset_id: &str, index_text: &str, manifest: Result<Vec<u64>, String>) -> (r: Result<
    Kind,
    BlobError,
>)
    ensures
        parse_usize(index_text@) is None ==> (r matches Err(BlobError::MalformedKeyframeIndex { asset_id: a, requested: q })
            && a@ == asset_id@ && q@ == index_text@),
        parse_usize(index_text@) is Some ==> match manifest {
            Err(why) => r matches Err(BlobError::MalformedManifest { asset_id: a, source: s }) && a@ == asset_id@
                && s@ == why@,
            Ok(ts) => {
                let i = parse_usize(index_text@)->0;
                &&& i < ts.len() ==> r == Ok::<Kind, BlobError>(Kind::KeyframeImage { timestamp_ms: ts@[i as int] })
                &&& i >= ts.len() ==> (r matches Err(BlobError::KeyframeIndexOutOfRange { asset_id: a, index: j, count: c })
                    && a@ == asset_id@ && j == i && c == ts.len())
            },
        },
{
    let index = match keyframe_index(asset_id, index_text) {
        Ok(i) => i,
        Err(e) => return Err(e),
    };
    let timestamps = match read_keyframe_timestamps(asset_id, manifest) {
        Ok(ts) => ts,
        Err(e) => return Err(e),
    };
    read_keyframe_image(asset_id, index, &timestamps)
}

} // verus!
