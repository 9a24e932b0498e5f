//! `maj scan`'s computations: which volume a scan tags its events with, a
//! file's content-addressed asset id (its XXH3-128 digest, streamed), how a
//! scanned path is written in an event, and the events a scan emits.
use vstd::prelude::*;
use crate::text::{cat, chars_of, hex_fixed, push_char, string_of};

verus! {

/// `xxhash_rust`'s streaming XXH3 hasher, carried opaquely.
#[verifier::external_type_specification]
#[verifier::external_body]
pub struct ExXxh3(xxhash_rust::xxh3::Xxh3);

/// XXH3-128 of a byte string (default secret, seed 0).
pub uninterp spec fn xxh3_128_of(input: Seq<u8>) -> u128;

/// The bytes a streaming hasher has absorbed so far.
pub uninterp spec fn xxh3_absorbed(h: xxhash_rust::xxh3::Xxh3) -> Seq<u8>;

/// `Xxh3::new`: a hasher that has absorbed nothing.
#[verifier::external_body]
fn xxh3_new() -> (h: xxhash_rust::xxh3::Xxh3)
    ensures
        xxh3_absorbed(h) == Seq::<u8>::empty(),
{
    xxhash_rust::xxh3::Xxh3::new()
}

/// `Xxh3::update`: absorbs `input` after what the hasher already holds.
#[verifier::external_body]
fn xxh3_update(h: &mut xxhash_rust::xxh3::Xxh3, input: &[u8])
    ensures
        xxh3_absorbed(*final(h)) == xxh3_absorbed(*old(h)) + input@,
{
    h.update(input);
}

/// `Xxh3::digest128`: the XXH3-128 of everything absorbed — the same value
/// the one-shot `xxh3_128` gives for those bytes.
#[verifier::external_body]
fn xxh3_digest128(h: &xxhash_rust::xxh3::Xxh3) -> (d: u128)
    ensures
        d == xxh3_128_of(xxh3_absorbed(*h)),
{
    h.digest128()
}

/// The asset id for a content digest: `xxh3:` and the digest as 32
/// lowercase hex digits.
pub open spec fn asset_id_text(digest: u128) -> Seq<char> {
    "xxh3:"@ + hex_fixed(digest as nat, 32)
}

fn hex_digit(d: u128) -> (c: char)
    requires
        d < 16,
    ensures
        c == crate::text::hex_char(d as nat),
{
    if d < 10 {
        crate::text::digit(d as u64)
    } else if d == 10 {
        'a'
    } else if d == 11 {
        'b'
    } else if d == 12 {
        'c'
    } else if d == 13 {
        'd'
    } else if d == 14 {
        'e'
    } else {
        'f'
    }
}

/// The asset id for a content digest.
pub fn asset_id(digest: u128) -> (id: String)
    ensures
        id@ == asset_id_text(digest),
{
    let mut digits: Vec<char> = Vec::new();
    let mut n: u128 = digest;
    let mut k: usize = 0;
    assert(crate::text::pow16(0) == 1);
    assert(digest as nat / 1 == digest as nat);
    while k < 32
        invariant
            k <= 32,
            digits.len() == k,
            forall|i: int| 0 <= i < k ==> #[trigger] digits@[i] == hex_fixed(digest as nat, 32)[31 - i],
            n as nat == (digest as nat) / crate::text::pow16(k as nat),
            crate::text::pow16(k as nat) > 0,
        decreases 32 - k,
    {
        proof {
            crate::text::lemma_hex_fixed_digit(digest as nat, 32, k as nat);
        }
        digits.push(hex_digit(n % 16));
        proof {
            vstd::arithmetic::div_mod::lemma_div_denominator(digest as int, crate::text::pow16(k as nat) as int, 16);
            crate::text::lemma_pow16_positive((k + 1) as nat);
            assert(crate::text::pow16((k + 1) as nat) == 16 * crate::text::pow16(k as nat));
            assert(crate::text::pow16(k as nat) * 16 == 16 * crate::text::pow16(k as nat)) by (nonlinear_arith);
        }
        n = n / 16;
        k = k + 1;
    }
    let mut ordered: Vec<char> = Vec::new();
    let mut j: usize = 32;
    while j > 0
        invariant
            j <= 32,
            digits.len() == 32,
            ordered.len() == 32 - j,
            forall|i: int| 0 <= i < 32 ==> #[trigger] digits@[i] == hex_fixed(digest as nat, 32)[31 - i],
            forall|i: int| 0 <= i < 32 - j ==> #[trigger] ordered@[i] == hex_fixed(digest as nat, 32)[i],
        decreases j,
    {
        j = j - 1;
        ordered.push(digits[j]);
    }
    proof {
        crate::text::lemma_hex_fixed_len(digest as nat, 32);
        assert(ordered@ =~= hex_fixed(digest as nat, 32));
    }
    let hex = string_of(&ordered);
    cat("xxh3:", hex.as_str())
}

/// A file's content hash, fed chunk by chunk as the host reads it, so a
/// multi-gigabyte file is never held in memory.
pub struct AssetHasher {
    state: xxhash_rust::xxh3::Xxh3,
}

impl AssetHasher {
    /// The bytes absorbed so far.
    pub closed spec fn absorbed(&self) -> Seq<u8> {
        xxh3_absorbed(self.state)
    }

    /// A hasher that has absorbed nothing.
    pub fn new() -> (h: Self)
        ensures
            h.absorbed() == Seq::<u8>::empty(),
    {
        AssetHasher { state: xxh3_new() }
    }

    /// Absorbs the next chunk of the file.
    pub fn update(&mut self, chunk: &[u8])
        ensures
            final(self).absorbed() == old(self).absorbed() + chunk@,
    {
        xxh3_update(&mut self.state, chunk);
    }

    /// The asset id of everything absorbed.
    pub fn asset_id(&self) -> (id: String)
        ensures
            id@ == asset_id_text(xxh3_128_of(self.absorbed())),
    {
        asset_id(xxh3_digest128(&self.state))
    }
}

/// The volume a scan tags its events with: an explicit `--volume` as both
/// id and label, else the detected volume's identity (id, label).
pub fn resolve_volume(volume: Option<String>, detected: (String, String)) -> (r: (String, String))
    ensures
        match volume {
            Some(v) => r.0@ == v@ && r.1@ == v@,
            None => r.0@ == detected.0@ && r.1@ == detected.1@,
        },
{
    match volume {
        Some(v) => (v.clone(), v),
        None => detected,
    }
}

/// `s` with every backslash written as a forward slash.
pub open spec fn forward_slashes(s: Seq<char>) -> Seq<char> {
    s.map_values(|c: char| if c == '\\' {
        '/'
    } else {
        c
    })
}

/// A scanned path as an event records it: separators written as `/`.
pub fn event_path(path: &str) -> (p: String)
    ensures
        p@ == forward_slashes(path@),
{
    let chars = chars_of(path);
    let mut out = String::new();
    let mut i: usize = 0;
    while i < chars.len()
        invariant
            chars@ == path@,
            i <= chars.len(),
            out@ == forward_slashes(path@.subrange(0, i as int)),
        decreases chars.len() - i,
    {
        let c = chars[i];
        push_char(&mut out, if c == '\\' {
            '/'
        } else {
            c
        });
        i = i + 1;
        assert(out@ =~= forward_slashes(path@.subrange(0, i as int)));
    }
    assert(path@.subrange(0, chars.len() as int) =~= path@);
    out
}

/// One file a scan saw: its asset id, where it is on the volume, its size
/// and modification time (ms since the epoch, 0 when unknown).
#[derive(Debug)]
pub struct SeenFile {
    pub asset: String,
    pub path: String,
    pub size: u64,
    pub mtime_ms: u64,
}

/// An event a scan emits.
#[derive(Debug)]
pub enum ScanOp {
    VolumeSeen { volume: String, label: String },
    AssetSeen { asset: String, volume: String, path: String, size: u64, mtime_ms: u64 },
}

/// Everything `maj scan` renders.
#[derive(Debug)]
pub struct ScanOutcome {
    pub assets: usize,
    pub volume_id: String,
    pub notices: Vec<String>,
}

/// The events a scan emits: the volume first, then one sighting per file
/// in the order the walk found them.
pub fn scan_ops(volume_id: &str, volume_label: &str, files: Vec<SeenFile>) -> (ops: Vec<ScanOp>)
    ensures
        ops.len() == files.len() + 1,
        ops@[0] matches ScanOp::VolumeSeen { volume, label } && volume@ == volume_id@ && label@
            == volume_label@,
        forall|i: int|
            0 <= i < files.len() ==> ((#[trigger] ops@[i + 1]) matches ScanOp::AssetSeen {
                asset,
                volume,
                path,
                size,
                mtime_ms,
            } && asset == files@[i].asset && volume@ == volume_id@ && path == files@[i].path && size
                == files@[i].size && mtime_ms == files@[i].mtime_ms),
{
    let mut ops: Vec<ScanOp> = Vec::new();
    ops.push(ScanOp::VolumeSeen { volume: volume_id.to_owned(), label: volume_label.to_owned() });
    let ghost all = files@;
    let mut rest = files;
    let mut k: usize = 0;
    while rest.len() > 0
        invariant
            k + rest.len() == all.len(),
            rest@ == all.subrange(k as int, all.len() as int),
            ops.len() == k + 1,
            ops@[0] matches ScanOp::VolumeSeen { volume, label } && volume@ == volume_id@ && label@
                == volume_label@,
            forall|i: int|
                0 <= i < k ==> ((#[trigger] ops@[i + 1]) matches ScanOp::AssetSeen {
                    asset,
                    volume,
                    path,
                    size,
                    mtime_ms,
                } && asset == all[i].asset && volume@ == volume_id@ && path == all[i].path && size
                    == all[i].size && mtime_ms == all[i].mtime_ms),
        decreases rest.len(),
    {
        let f = rest.remove(0);
        ops.push(ScanOp::AssetSeen {
            asset: f.asset,
            volume: volume_id.to_owned(),
            path: f.path,
            size: f.size,
            mtime_ms: f.mtime_ms,
        });
        k = k + 1;
        assert(rest@ =~= all.subrange(k as int, all.len() as int));
    }
    ops
}

/// `maj scan`'s outcome: how many files it saw (the events it emits hold
/// one more, the volume's own sighting, which is not an asset), the volume
/// it tagged them with, and the diagnostics collected.
pub fn scan_outcome(volume_id: &str, files: &Vec<SeenFile>, notices: Vec<String>) -> (o: ScanOutcome)
    ensures
        o.assets == files.len(),
        o.volume_id@ == volume_id@,
        o.notices@ == notices@,
{
    ScanOutcome { assets: files.len(), volume_id: volume_id.to_owned(), notices }
}

/// The path a sighting records: relative to the detected volume's mount
/// root when the volume was detected and the file lies under that root
/// (`mount_relative`), else relative to the scanned directory — always with
/// an explicit `--volume`, whose synthetic id has no mount to re-base on.
pub fn sighting_path(auto_detect: bool, scan_relative: &str, mount_relative: Option<&str>) -> (p: String)
    ensures
        p@ == forward_slashes(
            if auto_detect && mount_relative is Some {
                mount_relative.unwrap()@
            } else {
                scan_relative@
            },
        ),
{
    if auto_detect {
        match mount_relative {
            Some(m) => return event_path(m),
            None => {},
        }
    }
    event_path(scan_relative)
}

} // verus!
