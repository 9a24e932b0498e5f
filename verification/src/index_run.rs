//! The decisions `maj index run` makes around its executors: how a pass's
//! items split into per-kind batches under `--limit`, when a video's
//! keyframe extraction has failed badly enough to give up on it for the
//! pass, what that failure says, and which keyframes a video caption
//! describes.
use vstd::prelude::*;
use crate::heal::{nonblank, is_nonblank, ts_locator};
use crate::index::{CaptionOutcome, ItemFailure, KeyframeOutcome, OcrOutcome, TranscriptEmbedOutcome, WorkItem, WorkKind};
use crate::text::{cat, decimal, push_decimal, str_eq};

verus! {

/// At most this many keyframes are described per video.
pub const MAX_DESCRIBED_KEYFRAMES: usize = 12;

/// More than half of a video's detected keyframes failed; a video with
/// none detected never is.
pub open spec fn over_half(failures: nat, total: nat) -> bool {
    total > 0 && failures * 2 > total
}

/// Whether more than half of a video's detected keyframes failed.
pub fn over_half_failed(failures: usize, total: usize) -> (r: bool)
    requires
        failures * 2 <= usize::MAX,
    ensures
        r == over_half(failures as nat, total as nat),
{
    total > 0 && failures * 2 > total
}

pub open spec fn over_half_text(path: Seq<char>, failures: nat, total: nat, first_reason: Seq<char>) -> Seq<char> {
    path + ": "@ + decimal(failures) + "/"@ + decimal(total)
        + " keyframes failed to extract/embed (over half) — first failure: "@ + first_reason
        + " — video skipped, will retry"@
}

/// The failure recorded for a video given up on: its path, the
/// failure/total counts, and the first keyframe's failure reason.
pub fn over_half_failed_message(path: &str, failures: usize, total: usize, first_reason: &str) -> (m: String)
    ensures
        m@ == over_half_text(path@, failures as nat, total as nat, first_reason@),
{
    let mut m = cat(path, ": ");
    push_decimal(&mut m, failures as u64);
    m.append("/");
    push_decimal(&mut m, total as u64);
    m.append(" keyframes failed to extract/embed (over half) — first failure: ");
    m.append(first_reason);
    m.append(" — video skipped, will retry");
    m
}

/// A keyframe timestamp as a signed millisecond count, saturating at
/// `i64::MAX`.
pub fn ts_ms_i64(ts_ms: u64) -> (r: i64)
    ensures
        r as int == if ts_ms <= i64::MAX as u64 {
            ts_ms as int
        } else {
            i64::MAX as int
        },
{
    if ts_ms <= i64::MAX as u64 {
        ts_ms as i64
    } else {
        i64::MAX
    }
}

/// The stride keyframes are sampled at: the list's length over the cap,
/// rounded up, and at least one.
pub open spec fn described_step(len: nat) -> nat {
    let s = (len + 11) / 12;
    if s == 0 {
        1
    } else {
        s
    }
}

/// How many keyframes a list of `len` yields at stride `step`, capped.
pub open spec fn described_count(len: nat, step: nat) -> nat {
    let c = (len + step - 1) / (step as int);
    if c > 12 {
        12
    } else {
        c as nat
    }
}

/// Up to twelve timestamps, evenly spaced across the detected list: every
/// `step`-th from the first, so short lists keep every keyframe and long
/// ones sample across their whole duration.
pub fn select_described_timestamps(timestamps: &Vec<u64>) -> (out: Vec<u64>)
    ensures
        out.len() == described_count(timestamps.len() as nat, described_step(timestamps.len() as nat)),
        forall|k: int|
            0 <= k < out.len() ==> #[trigger] out@[k] == timestamps@[k * described_step(
                timestamps.len() as nat,
            )],
{
    let len = timestamps.len();
    let q = len / MAX_DESCRIBED_KEYFRAMES + if len % MAX_DESCRIBED_KEYFRAMES == 0 {
        0
    } else {
        1
    };
    let step: usize = if q == 0 {
        1
    } else {
        q
    };
    assert(step as nat == described_step(len as nat)) by (nonlinear_arith)
        requires
            q == len / 12 + if len % 12 == 0 {
                0int
            } else {
                1int
            },
            step == if q == 0 {
                1
            } else {
                q
            },
    ;
    let mut out: Vec<u64> = Vec::new();
    let mut i: usize = 0;
    let mut finished = len == 0;
    while !finished && out.len() < MAX_DESCRIBED_KEYFRAMES
        invariant
            len == timestamps.len(),
            step >= 1,
            step as nat == described_step(len as nat),
            out.len() <= 12,
            !finished ==> i == out.len() * step && i < len,
            finished ==> out.len() * step >= len,
            out.len() == 0 || (out.len() - 1) * step < len,
            forall|k: int| 0 <= k < out.len() ==> #[trigger] out@[k] == timestamps@[k * step],
        decreases 12 - out.len(),
    {
        out.push(timestamps[i]);
        proof {
            assert((out.len() - 1) * step == i);
        }
        if len - i <= step {
            finished = true;
            proof {
                assert(out.len() * step >= len) by (nonlinear_arith)
                    requires
                        (out.len() - 1) * step + step >= len,
                ;
            }
        } else {
            i = i + step;
            assert(i == out.len() * step) by (nonlinear_arith)
                requires
                    i == (out.len() - 1) * step + step,
            ;
        }
    }
    proof {
        lemma_described_count(len as nat, step as nat, out.len() as nat);
    }
    out
}

proof fn lemma_described_count(len: nat, step: nat, n: nat)
    requires
        step >= 1,
        n <= 12,
        n == 0 || (n - 1) * step < len,
        n == 12 || n * step >= len,
    ensures
        n == described_count(len, step),
{
    let c = (len + step - 1) / (step as int);
    if n < 12 {
        assert(c == n) by (nonlinear_arith)
            requires
                step >= 1,
                n == 0 || (n - 1) * step < len,
                n * step >= len,
                c == (len + step - 1) / (step as int),
        ;
    } else {
        assert(c >= 12) by (nonlinear_arith)
            requires
                step >= 1,
                11 * step < len,
                c == (len + step - 1) / (step as int),
        ;
    }
}


/// What working one detected keyframe timestamp did: its blob already
/// existed, it was extracted and written now, or it failed with a reason.
#[derive(Debug)]
pub enum TimestampOutcome {
    AlreadyComplete,
    Written,
    Failed(String),
}

/// One video's keyframe pass, tallied.
#[derive(Debug)]
pub struct VideoKeyframeTally {
    pub succeeded_timestamps: Vec<u64>,
    pub keyframes_written: u64,
    pub keyframe_failures: usize,
    pub total_keyframes: usize,
    pub first_failure_reason: Option<String>,
}

/// The timestamps whose work did not fail, in order.
pub open spec fn succeeded(ts: Seq<u64>, rs: Seq<TimestampOutcome>) -> Seq<u64>
    decreases rs.len(),
{
    if rs.len() == 0 || ts.len() < rs.len() {
        Seq::empty()
    } else {
        let rest = succeeded(ts.subrange(0, rs.len() - 1), rs.drop_last());
        if rs.last() is Failed {
            rest
        } else {
            rest.push(ts[rs.len() - 1])
        }
    }
}

/// How many outcomes satisfy `wanted`.
pub open spec fn count_outcomes(rs: Seq<TimestampOutcome>, written: bool) -> nat
    decreases rs.len(),
{
    if rs.len() == 0 {
        0
    } else {
        count_outcomes(rs.drop_last(), written) + if (written && rs.last() is Written) || (!written
            && rs.last() is Failed) {
            1nat
        } else {
            0nat
        }
    }
}

/// The reason of the first failed outcome, if any failed.
pub open spec fn first_failure(rs: Seq<TimestampOutcome>) -> Option<Seq<char>>
    decreases rs.len(),
{
    if rs.len() == 0 {
        None
    } else {
        match first_failure(rs.drop_last()) {
            Some(r) => Some(r),
            None => match rs.last() {
                TimestampOutcome::Failed(m) => Some(m@),
                _ => None,
            },
        }
    }
}

proof fn lemma_count_bound(rs: Seq<TimestampOutcome>, written: bool)
    ensures
        count_outcomes(rs, written) <= rs.len(),
    decreases rs.len(),
{
    if rs.len() > 0 {
        lemma_count_bound(rs.drop_last(), written);
    }
}

/// Tallies one video's per-timestamp outcomes (`results[k]` for
/// `timestamps[k]`): the timestamps that succeeded, how many were newly
/// written, how many failed and the first failure's reason.
pub fn tally_video_keyframes(timestamps: &Vec<u64>, results: Vec<TimestampOutcome>) -> (t: VideoKeyframeTally)
    requires
        results.len() == timestamps.len(),
    ensures
        t.succeeded_timestamps@ == succeeded(timestamps@, results@),
        t.keyframes_written == count_outcomes(results@, true),
        t.keyframe_failures == count_outcomes(results@, false),
        t.total_keyframes == timestamps.len(),
        match (t.first_failure_reason, first_failure(results@)) {
            (Some(a), Some(b)) => a@ == b,
            (None, None) => true,
            _ => false,
        },
{
    let ghost all = results@;
    let mut rest = results;
    let mut ok: Vec<u64> = Vec::new();
    let mut written: u64 = 0;
    let mut failures: usize = 0;
    let mut first: Option<String> = None;
    let mut k: usize = 0;
    assert(timestamps@.subrange(0, 0) =~= Seq::<u64>::empty());
    while rest.len() > 0
        invariant
            k + rest.len() == all.len(),
            all.len() == timestamps.len(),
            rest@ == all.subrange(k as int, all.len() as int),
            ok@ == succeeded(timestamps@.subrange(0, k as int), all.subrange(0, k as int)),
            written == count_outcomes(all.subrange(0, k as int), true),
            failures == count_outcomes(all.subrange(0, k as int), false),
            match (first, first_failure(all.subrange(0, k as int))) {
                (Some(a), Some(b)) => a@ == b,
                (None, None) => true,
                _ => false,
            },
        decreases rest.len(),
    {
        let r = rest.remove(0);
        let ghost pre = all.subrange(0, k as int);
        let ghost next = all.subrange(0, k + 1);
        proof {
            assert(next.drop_last() =~= pre);
            assert(next.last() == r);
            assert(timestamps@.subrange(0, k + 1).subrange(0, k as int) =~= timestamps@.subrange(0, k as int));
            lemma_count_bound(next, true);
            lemma_count_bound(next, false);
        }
        match r {
            TimestampOutcome::AlreadyComplete => {
                ok.push(timestamps[k]);
            },
            TimestampOutcome::Written => {
                ok.push(timestamps[k]);
                written = written + 1;
            },
            TimestampOutcome::Failed(reason) => {
                failures = failures + 1;
                if first.is_none() {
                    first = Some(reason);
                }
            },
        }
        k = k + 1;
        assert(rest@ =~= all.subrange(k as int, all.len() as int));
    }
    assert(all.subrange(0, k as int) =~= all);
    assert(timestamps@.subrange(0, k as int) =~= timestamps@);
    VideoKeyframeTally {
        succeeded_timestamps: ok,
        keyframes_written: written,
        keyframe_failures: failures,
        total_keyframes: timestamps.len(),
        first_failure_reason: first,
    }
}

/// The failure text a video given up on records.
pub open spec fn video_failure_text(path: Seq<char>, t: VideoKeyframeTally) -> Seq<char> {
    over_half_text(
        path,
        t.keyframe_failures as nat,
        t.total_keyframes as nat,
        match t.first_failure_reason {
            Some(r) => r@,
            None => "<no reason recorded>"@,
        },
    )
}

/// Folds one video's keyframe result into the pass outcome. A video whose
/// probe failed, or more than half of whose keyframes failed, records a
/// permanent failure for its asset and gets no manifest; otherwise it counts
/// as done and its manifest is written. Returns whether to write it.
pub fn record_video_keyframes(outcome: &mut KeyframeOutcome, item: &WorkItem, result: Result<VideoKeyframeTally, String>) -> (write_manifest: bool)
    requires
        result matches Ok(t) ==> {
            &&& old(outcome).keyframes_written + t.keyframes_written <= u64::MAX
            &&& old(outcome).keyframes_failed + t.keyframe_failures <= u64::MAX
            &&& old(outcome).videos_done < u64::MAX
            &&& t.keyframe_failures * 2 <= usize::MAX
        },
    ensures
        match result {
            Err(reason) => {
                &&& !write_manifest
                &&& final(outcome).failed@ == old(outcome).failed@.push(
                    ItemFailure { asset: item.asset, path: item.abs_path, error: final(outcome).failed@.last().error, transient: false },
                )
                &&& final(outcome).failed@.last().error@ == reason@
                &&& final(outcome).keyframes_written == old(outcome).keyframes_written
                &&& final(outcome).keyframes_failed == old(outcome).keyframes_failed
                &&& final(outcome).videos_done == old(outcome).videos_done
            },
            Ok(t) => {
                &&& final(outcome).keyframes_written == old(outcome).keyframes_written + t.keyframes_written
                &&& final(outcome).keyframes_failed == old(outcome).keyframes_failed + t.keyframe_failures
                &&& write_manifest == !over_half(t.keyframe_failures as nat, t.total_keyframes as nat)
                &&& write_manifest ==> final(outcome).videos_done == old(outcome).videos_done + 1
                    && final(outcome).failed@ == old(outcome).failed@
                &&& !write_manifest ==> final(outcome).videos_done == old(outcome).videos_done
                    && final(outcome).failed@ == old(outcome).failed@.push(
                    ItemFailure { asset: item.asset, path: item.abs_path, error: final(outcome).failed@.last().error, transient: false },
                ) && final(outcome).failed@.last().error@ == video_failure_text(item.abs_path@, t)
            },
        },
{
    match result {
        Err(reason) => {
            outcome.failed.push(
                ItemFailure {
                    asset: item.asset.clone(),
                    path: item.abs_path.clone(),
                    error: reason,
                    transient: false,
                },
            );
            false
        },
        Ok(t) => {
            outcome.keyframes_written = outcome.keyframes_written + t.keyframes_written;
            outcome.keyframes_failed = outcome.keyframes_failed + t.keyframe_failures as u64;
            if over_half_failed(t.keyframe_failures, t.total_keyframes) {
                let reason: &str = match &t.first_failure_reason {
                    Some(r) => r.as_str(),
                    None => "<no reason recorded>",
                };
                let message = over_half_failed_message(
                    item.abs_path.as_str(),
                    t.keyframe_failures,
                    t.total_keyframes,
                    reason,
                );
                outcome.failed.push(
                    ItemFailure {
                        asset: item.asset.clone(),
                        path: item.abs_path.clone(),
                        error: message,
                        transient: false,
                    },
                );
                false
            } else {
                outcome.videos_done = outcome.videos_done + 1;
                true
            }
        },
    }
}


/// A copy of `item`.
pub fn copy_item(item: &WorkItem) -> (c: WorkItem)
    ensures
        c == *item,
{
    WorkItem {
        asset: item.asset.clone(),
        asset_hex: item.asset_hex.clone(),
        abs_path: item.abs_path.clone(),
        kind: item.kind,
    }
}

/// `items` of `kind`, in order, cut to the first `limit` when there is one.
pub open spec fn capped(items: Seq<WorkItem>, kind: WorkKind, limit: Option<usize>) -> Seq<WorkItem> {
    let all = items.filter(|it: WorkItem| it.kind == kind);
    match limit {
        Some(n) => if all.len() > n {
            all.subrange(0, n as int)
        } else {
            all
        },
        None => all,
    }
}

fn of_kind(items: &Vec<WorkItem>, kind: WorkKind, limit: Option<usize>) -> (out: Vec<WorkItem>)
    ensures
        out@ == capped(items@, kind, limit),
{
    let ghost pred = |it: WorkItem| it.kind == kind;
    let mut out: Vec<WorkItem> = Vec::new();
    let mut i: usize = 0;
    proof {
        reveal(Seq::filter);
        assert(out@ =~= items@.subrange(0, 0).filter(pred));
    }
    while i < items.len()
        invariant
            i <= items.len(),
            pred == (|it: WorkItem| it.kind == kind),
            out@ == items@.subrange(0, i as int).filter(pred),
        decreases items.len() - i,
    {
        proof {
            reveal(Seq::filter);
            assert(items@.subrange(0, i + 1).drop_last() =~= items@.subrange(0, i as int));
        }
        if items[i].kind == kind {
            out.push(copy_item(&items[i]));
        }
        i = i + 1;
    }
    assert(items@.subrange(0, items.len() as int) =~= items@);
    if let Some(n) = limit {
        if out.len() > n {
            out.truncate(n);
        }
    }
    out
}

/// A pass's items split by the executor each goes to.
#[derive(Debug)]
pub struct KindItems {
    pub thumbs: Vec<WorkItem>,
    pub embeds: Vec<WorkItem>,
    pub keyframes: Vec<WorkItem>,
    pub keyframe_images: Vec<WorkItem>,
    pub transcribes: Vec<WorkItem>,
    pub transcript_embeds: Vec<WorkItem>,
    pub ocr_images: Vec<WorkItem>,
    pub ocr_keyframes: Vec<WorkItem>,
    pub pdfs: Vec<WorkItem>,
    pub captions: Vec<WorkItem>,
}

/// Splits `items` by kind, then caps each kind independently at `limit`:
/// `--limit` bounds every executor's own budget for the pass rather than
/// one kind starving another.
pub fn split_and_cap_items(items: Vec<WorkItem>, limit: Option<usize>) -> (split: KindItems)
    ensures
        split.thumbs@ == capped(items@, WorkKind::Thumb, limit),
        split.embeds@ == capped(items@, WorkKind::ImageEmbed, limit),
        split.keyframes@ == capped(items@, WorkKind::Keyframes, limit),
        split.keyframe_images@ == capped(items@, WorkKind::KeyframeImages, limit),
        split.transcribes@ == capped(items@, WorkKind::Transcribe, limit),
        split.transcript_embeds@ == capped(items@, WorkKind::TranscriptEmbed, limit),
        split.ocr_images@ == capped(items@, WorkKind::OcrImage, limit),
        split.ocr_keyframes@ == capped(items@, WorkKind::OcrKeyframes, limit),
        split.pdfs@ == capped(items@, WorkKind::PdfText, limit),
        split.captions@ == capped(items@, WorkKind::Caption, limit),
{
    KindItems {
        thumbs: of_kind(&items, WorkKind::Thumb, limit),
        embeds: of_kind(&items, WorkKind::ImageEmbed, limit),
        keyframes: of_kind(&items, WorkKind::Keyframes, limit),
        keyframe_images: of_kind(&items, WorkKind::KeyframeImages, limit),
        transcribes: of_kind(&items, WorkKind::Transcribe, limit),
        transcript_embeds: of_kind(&items, WorkKind::TranscriptEmbed, limit),
        ocr_images: of_kind(&items, WorkKind::OcrImage, limit),
        ocr_keyframes: of_kind(&items, WorkKind::OcrKeyframes, limit),
        pdfs: of_kind(&items, WorkKind::PdfText, limit),
        captions: of_kind(&items, WorkKind::Caption, limit),
    }
}


/// Whether a video's keyframe OCR is complete, so its completion marker
/// is written: every timestamp has its text blob.
pub fn ocr_marker_due(t: &VideoKeyframeTally) -> (r: bool)
    ensures
        r == (t.keyframe_failures == 0),
{
    t.keyframe_failures == 0
}

/// The failure text a video whose keyframe OCR is still incomplete records.
pub open spec fn ocr_incomplete_text(t: VideoKeyframeTally) -> Seq<char> {
    decimal(t.keyframe_failures as nat) + "/"@ + decimal(t.total_keyframes as nat)
        + " keyframes failed OCR — first failure: "@ + match t.first_failure_reason {
        Some(r) => r@,
        None => "<no reason>"@,
    } + " — video incomplete, will retry"@
}

/// Folds one still's OCR result into the pass outcome.
pub fn record_still_ocr(outcome: &mut OcrOutcome, item: &WorkItem, result: Result<(), String>)
    requires
        old(outcome).images_written < u64::MAX,
    ensures
        match result {
            Ok(()) => final(outcome).images_written == old(outcome).images_written + 1
                && final(outcome).failed@ == old(outcome).failed@,
            Err(reason) => final(outcome).images_written == old(outcome).images_written
                && final(outcome).failed@ == old(outcome).failed@.push(
                ItemFailure { asset: item.asset, path: item.abs_path, error: reason, transient: false },
            ),
        },
        final(outcome).videos_done == old(outcome).videos_done,
        final(outcome).keyframes_written == old(outcome).keyframes_written,
{
    match result {
        Ok(()) => {
            outcome.images_written = outcome.images_written + 1;
        },
        Err(reason) => {
            outcome.failed.push(
                ItemFailure { asset: item.asset.clone(), path: item.abs_path.clone(), error: reason, transient: false },
            );
        },
    }
}

/// Folds one video's keyframe OCR result into the pass outcome: its new
/// keyframe texts count in any case; the video counts as done when none
/// failed, else it records a failure naming the counts and the first
/// reason. A video whose pass could not run at all records that reason.
pub fn record_video_ocr(outcome: &mut OcrOutcome, item: &WorkItem, result: Result<VideoKeyframeTally, String>)
    requires
        result matches Ok(t) ==> old(outcome).keyframes_written + t.keyframes_written <= u64::MAX
            && old(outcome).videos_done < u64::MAX,
    ensures
        final(outcome).images_written == old(outcome).images_written,
        match result {
            Err(reason) => {
                &&& final(outcome).failed@ == old(outcome).failed@.push(
                    ItemFailure { asset: item.asset, path: item.abs_path, error: reason, transient: false },
                )
                &&& final(outcome).keyframes_written == old(outcome).keyframes_written
                &&& final(outcome).videos_done == old(outcome).videos_done
            },
            Ok(t) => {
                &&& final(outcome).keyframes_written == old(outcome).keyframes_written + t.keyframes_written
                &&& t.keyframe_failures == 0 ==> final(outcome).videos_done == old(outcome).videos_done + 1
                    && final(outcome).failed@ == old(outcome).failed@
                &&& t.keyframe_failures != 0 ==> final(outcome).videos_done == old(outcome).videos_done
                    && final(outcome).failed@ == old(outcome).failed@.push(
                    ItemFailure { asset: item.asset, path: item.abs_path, error: final(outcome).failed@.last().error, transient: false },
                ) && final(outcome).failed@.last().error@ == ocr_incomplete_text(t)
            },
        },
{
    match result {
        Err(reason) => {
            outcome.failed.push(
                ItemFailure { asset: item.asset.clone(), path: item.abs_path.clone(), error: reason, transient: false },
            );
        },
        Ok(t) => {
            outcome.keyframes_written = outcome.keyframes_written + t.keyframes_written;
            if t.keyframe_failures == 0 {
                outcome.videos_done = outcome.videos_done + 1;
            } else {
                let first: &str = match &t.first_failure_reason {
                    Some(r) => r.as_str(),
                    None => "<no reason>",
                };
                let mut m = String::new();
                push_decimal(&mut m, t.keyframe_failures as u64);
                m.append("/");
                push_decimal(&mut m, t.total_keyframes as u64);
                m.append(" keyframes failed OCR — first failure: ");
                m.append(first);
                m.append(" — video incomplete, will retry");
                outcome.failed.push(
                    ItemFailure { asset: item.asset.clone(), path: item.abs_path.clone(), error: m, transient: false },
                );
            }
        },
    }
}

/// One chunk of a transcript: the span it covers and its text.
#[derive(Debug)]
pub struct TranscriptChunk {
    pub start_ms: u64,
    pub end_ms: u64,
    pub text: String,
}

/// What embedding one transcript's chunks calls for: the starts of its
/// non-blank chunks (what its completion marker lists), and which of those
/// chunks still need a vector, by index.
#[derive(Debug)]
pub struct ChunkEmbedPlan {
    pub starts: Vec<u64>,
    pub to_embed: Vec<usize>,
}

/// The starts of the non-blank chunks among the first `n`.
pub open spec fn nonblank_starts(chunks: Seq<TranscriptChunk>, n: nat) -> Seq<u64>
    decreases n,
{
    if n == 0 {
        Seq::empty()
    } else if nonblank(chunks[n - 1].text@) {
        nonblank_starts(chunks, (n - 1) as nat).push(chunks[n - 1].start_ms)
    } else {
        nonblank_starts(chunks, (n - 1) as nat)
    }
}

/// The indices, among the first `n`, of the non-blank chunks whose vector
/// blob is not there yet.
pub open spec fn chunks_to_embed(chunks: Seq<TranscriptChunk>, present: Seq<bool>, n: nat) -> Seq<usize>
    decreases n,
{
    if n == 0 {
        Seq::empty()
    } else if nonblank(chunks[n - 1].text@) && !present[n - 1] {
        chunks_to_embed(chunks, present, (n - 1) as nat).push((n - 1) as usize)
    } else {
        chunks_to_embed(chunks, present, (n - 1) as nat)
    }
}

/// Plans one transcript's chunk embedding, given whether each chunk's
/// vector blob already exists (`present[k]` for `chunks[k]`): a blank
/// chunk is never embedded, and a chunk whose blob an earlier run left is
/// not embedded again. No starts at all means the transcript is empty.
pub fn plan_chunk_embed(chunks: &Vec<TranscriptChunk>, present: &Vec<bool>) -> (p: ChunkEmbedPlan)
    requires
        present.len() == chunks.len(),
    ensures
        p.starts@ == nonblank_starts(chunks@, chunks@.len()),
        p.to_embed@ == chunks_to_embed(chunks@, present@, chunks@.len()),
{
    let mut starts: Vec<u64> = Vec::new();
    let mut to_embed: Vec<usize> = Vec::new();
    let mut k: usize = 0;
    while k < chunks.len()
        invariant
            k <= chunks.len(),
            present.len() == chunks.len(),
            starts@ == nonblank_starts(chunks@, k as nat),
            to_embed@ == chunks_to_embed(chunks@, present@, k as nat),
        decreases chunks.len() - k,
    {
        if is_nonblank(chunks[k].text.as_str()) {
            starts.push(chunks[k].start_ms);
            if !present[k] {
                to_embed.push(k);
            }
        }
        k = k + 1;
    }
    p_plan(starts, to_embed)
}

fn p_plan(starts: Vec<u64>, to_embed: Vec<usize>) -> (p: ChunkEmbedPlan)
    ensures
        p.starts == starts,
        p.to_embed == to_embed,
{
    ChunkEmbedPlan { starts, to_embed }
}

/// What embedding one transcript's chunks came to: so many new chunk
/// vectors written, or no non-blank chunk at all.
#[derive(Debug, Clone, Copy, PartialEq, Eq)]
pub enum ChunkEmbedResult {
    Written(u64),
    Empty,
}

/// Folds one transcript's chunk-embedding result into the pass outcome; a
/// failure is recorded against the transcript blob at `transcript_path`.
pub fn record_chunk_embed(
    outcome: &mut TranscriptEmbedOutcome,
    item: &WorkItem,
    transcript_path: &str,
    result: Result<ChunkEmbedResult, String>,
)
    requires
        result matches Ok(ChunkEmbedResult::Written(n)) ==> old(outcome).chunks_written + n <= u64::MAX,
        result matches Ok(ChunkEmbedResult::Empty) ==> old(outcome).empty < u64::MAX,
    ensures
        final(outcome).loaded == old(outcome).loaded,
        match result {
            Ok(ChunkEmbedResult::Written(n)) => final(outcome).chunks_written == old(outcome).chunks_written + n
                && final(outcome).empty == old(outcome).empty && final(outcome).failed@ == old(outcome).failed@,
            Ok(ChunkEmbedResult::Empty) => final(outcome).chunks_written == old(outcome).chunks_written
                && final(outcome).empty == old(outcome).empty + 1 && final(outcome).failed@ == old(outcome).failed@,
            Err(reason) => final(outcome).chunks_written == old(outcome).chunks_written
                && final(outcome).empty == old(outcome).empty && final(outcome).failed@ == old(outcome).failed@.push(
                ItemFailure {
                    asset: item.asset,
                    path: final(outcome).failed@.last().path,
                    error: reason,
                    transient: false,
                },
            ) && final(outcome).failed@.last().path@ == transcript_path@,
        },
{
    match result {
        Ok(ChunkEmbedResult::Written(n)) => {
            outcome.chunks_written = outcome.chunks_written + n;
        },
        Ok(ChunkEmbedResult::Empty) => {
            outcome.empty = outcome.empty + 1;
        },
        Err(reason) => {
            outcome.failed.push(
                ItemFailure {
                    asset: item.asset.clone(),
                    path: transcript_path.to_owned(),
                    error: reason,
                    transient: false,
                },
            );
        },
    }
}

/// One chunk vector blob found on disk: the kind of vector it holds, the
/// asset it belongs to, and its timestamp.
#[derive(Debug)]
pub struct VectorBlobRef {
    pub kind: String,
    pub asset_hex: String,
    pub ts_ms: i64,
}

/// An asset's transcript chunks as re-derived from its transcript blob,
/// or `None` when that blob is missing or unreadable.
#[derive(Debug)]
pub struct AssetChunks {
    pub asset_hex: String,
    pub chunks: Option<Vec<TranscriptChunk>>,
}

/// Which chunk vector blobs the text store is to load, each as the index
/// of its blob and of the chunk that supplies its text, and how many
/// blobs were skipped for want of a matching chunk.
#[derive(Debug)]
pub struct ChunkLoadPlan {
    pub loads: Vec<(usize, usize)>,
    pub skipped: u64,
}

/// The text store already holds a row for `asset` at `ts`.
pub open spec fn is_stored(existing: Seq<(String, i64)>, asset: Seq<char>, ts: i64) -> bool {
    exists|i: int| 0 <= i < existing.len() && (#[trigger] existing[i]).0@ == asset && existing[i].1 == ts
}

/// A chunk blob the store is missing.
pub open spec fn wants_load(r: VectorBlobRef, existing: Seq<(String, i64)>) -> bool {
    r.kind@ == "chunk"@ && !is_stored(existing, r.asset_hex@, r.ts_ms)
}

/// The first entry of `sets` for `asset`.
pub open spec fn first_set_for(sets: Seq<AssetChunks>, asset: Seq<char>, n: nat) -> Option<int>
    decreases n,
{
    if n == 0 {
        None
    } else {
        match first_set_for(sets, asset, (n - 1) as nat) {
            Some(i) => Some(i),
            None => if sets[n - 1].asset_hex@ == asset {
                Some(n - 1)
            } else {
                None
            },
        }
    }
}

/// The first chunk, among the first `n`, starting at `ts` once its start
/// is taken as a signed millisecond count.
pub open spec fn first_chunk_at(chunks: Seq<TranscriptChunk>, ts: i64, n: nat) -> Option<int>
    decreases n,
{
    if n == 0 {
        None
    } else {
        match first_chunk_at(chunks, ts, (n - 1) as nat) {
            Some(i) => Some(i),
            None => if ts_locator(chunks[n - 1].start_ms) == ts {
                Some(n - 1)
            } else {
                None
            },
        }
    }
}

/// The chunk that supplies a wanted blob's text, if its asset's chunks
/// are known and one starts at its timestamp.
pub open spec fn supplying_chunk(r: VectorBlobRef, sets: Seq<AssetChunks>) -> Option<int> {
    match first_set_for(sets, r.asset_hex@, sets.len()) {
        Some(i) => match sets[i].chunks {
            Some(cs) => first_chunk_at(cs@, r.ts_ms, cs@.len()),
            None => None,
        },
        None => None,
    }
}

/// The loads among the first `n` blobs.
pub open spec fn planned_loads(refs: Seq<VectorBlobRef>, existing: Seq<(String, i64)>, sets: Seq<AssetChunks>, n: nat) -> Seq<(usize, usize)>
    decreases n,
{
    if n == 0 {
        Seq::empty()
    } else {
        let rest = planned_loads(refs, existing, sets, (n - 1) as nat);
        if wants_load(refs[n - 1], existing) {
            match supplying_chunk(refs[n - 1], sets) {
                Some(c) => rest.push(((n - 1) as usize, c as usize)),
                None => rest,
            }
        } else {
            rest
        }
    }
}

/// How many of the first `n` blobs are wanted but have no supplying chunk.
pub open spec fn planned_skips(refs: Seq<VectorBlobRef>, existing: Seq<(String, i64)>, sets: Seq<AssetChunks>, n: nat) -> nat
    decreases n,
{
    if n == 0 {
        0
    } else {
        planned_skips(refs, existing, sets, (n - 1) as nat) + if wants_load(refs[n - 1], existing) && supplying_chunk(
            refs[n - 1],
            sets,
        ) is None {
            1nat
        } else {
            0nat
        }
    }
}

fn stored(existing: &Vec<(String, i64)>, asset: &str, ts: i64) -> (r: bool)
    ensures
        r == is_stored(existing@, asset@, ts),
{
    let mut i: usize = 0;
    while i < existing.len()
        invariant
            i <= existing.len(),
            forall|k: int| 0 <= k < i ==> !((#[trigger] existing@[k]).0@ == asset@ && existing@[k].1 == ts),
        decreases existing.len() - i,
    {
        if existing[i].1 == ts && str_eq(existing[i].0.as_str(), asset) {
            return true;
        }
        i = i + 1;
    }
    false
}

fn find_set(sets: &Vec<AssetChunks>, asset: &str) -> (r: Option<usize>)
    ensures
        r matches Some(i) ==> i < sets.len(),
        match (r, first_set_for(sets@, asset@, sets@.len())) {
            (Some(a), Some(b)) => a == b,
            (None, None) => true,
            _ => false,
        },
{
    let mut i: usize = 0;
    while i < sets.len()
        invariant
            i <= sets.len(),
            first_set_for(sets@, asset@, i as nat) is None,
        decreases sets.len() - i,
    {
        if str_eq(sets[i].asset_hex.as_str(), asset) {
            proof {
                lemma_first_set_sticks(sets@, asset@, (i + 1) as nat, sets@.len());
            }
            return Some(i);
        }
        i = i + 1;
    }
    None
}

proof fn lemma_first_set_sticks(sets: Seq<AssetChunks>, asset: Seq<char>, k: nat, n: nat)
    requires
        k <= n,
        first_set_for(sets, asset, k) is Some,
    ensures
        first_set_for(sets, asset, n) == first_set_for(sets, asset, k),
    decreases n - k,
{
    if n > k {
        lemma_first_set_sticks(sets, asset, k, (n - 1) as nat);
    }
}

proof fn lemma_first_chunk_sticks(chunks: Seq<TranscriptChunk>, ts: i64, k: nat, n: nat)
    requires
        k <= n,
        first_chunk_at(chunks, ts, k) is Some,
    ensures
        first_chunk_at(chunks, ts, n) == first_chunk_at(chunks, ts, k),
    decreases n - k,
{
    if n > k {
        lemma_first_chunk_sticks(chunks, ts, k, (n - 1) as nat);
    }
}

proof fn lemma_first_chunk_bound(chunks: Seq<TranscriptChunk>, ts: i64, n: nat)
    ensures
        first_chunk_at(chunks, ts, n) matches Some(i) ==> 0 <= i < n,
    decreases n,
{
    if n > 0 {
        lemma_first_chunk_bound(chunks, ts, (n - 1) as nat);
    }
}

fn find_chunk(chunks: &Vec<TranscriptChunk>, ts: i64) -> (r: Option<usize>)
    ensures
        match (r, first_chunk_at(chunks@, ts, chunks@.len())) {
            (Some(a), Some(b)) => a == b,
            (None, None) => true,
            _ => false,
        },
{
    let mut i: usize = 0;
    while i < chunks.len()
        invariant
            i <= chunks.len(),
            first_chunk_at(chunks@, ts, i as nat) is None,
        decreases chunks.len() - i,
    {
        if ts_ms_i64(chunks[i].start_ms) == ts {
            proof {
                lemma_first_chunk_sticks(chunks@, ts, (i + 1) as nat, chunks@.len());
            }
            return Some(i);
        }
        i = i + 1;
    }
    None
}

/// The asset whose transcript must be re-chunked for the blobs the text
/// store is missing, each once, in order of first need.
pub open spec fn needs_chunks(refs: Seq<VectorBlobRef>, existing: Seq<(String, i64)>, asset: Seq<char>) -> bool {
    exists|i: int| 0 <= i < refs.len() && wants_load(#[trigger] refs[i], existing) && refs[i].asset_hex@ == asset
}

/// The assets whose transcripts the text-store rebuild needs re-chunked:
/// those of the chunk blobs the store is missing, each listed once.
pub fn assets_to_rechunk(refs: &Vec<VectorBlobRef>, existing: &Vec<(String, i64)>) -> (out: Vec<String>)
    ensures
        forall|k: int| 0 <= k < out.len() ==> needs_chunks(refs@, existing@, #[trigger] out@[k]@),
        forall|a: Seq<char>| needs_chunks(refs@, existing@, a) ==> exists|k: int| 0 <= k < out.len() && #[trigger] out@[k]@ == a,
        forall|j: int, k: int| 0 <= j < k < out.len() ==> (#[trigger] out@[j])@ != (#[trigger] out@[k])@,
{
    let mut out: Vec<String> = Vec::new();
    let mut i: usize = 0;
    while i < refs.len()
        invariant
            i <= refs.len(),
            forall|k: int| 0 <= k < out.len() ==> needs_chunks(refs@, existing@, #[trigger] out@[k]@),
            forall|j: int| 0 <= j < i && wants_load(#[trigger] refs@[j], existing@) ==> exists|k: int|
                0 <= k < out.len() && #[trigger] out@[k]@ == refs@[j].asset_hex@,
            forall|j: int, k: int| 0 <= j < k < out.len() ==> (#[trigger] out@[j])@ != (#[trigger] out@[k])@,
        decreases refs.len() - i,
    {
        let r = &refs[i];
        let ghost before = out@;
        if str_eq(r.kind.as_str(), "chunk") && !stored(existing, r.asset_hex.as_str(), r.ts_ms) {
            let mut seen = false;
            let mut k: usize = 0;
            while k < out.len()
                invariant
                    k <= out.len(),
                    !seen ==> forall|m: int| 0 <= m < k ==> (#[trigger] out@[m])@ != r.asset_hex@,
                    seen ==> exists|m: int| 0 <= m < out.len() && #[trigger] out@[m]@ == r.asset_hex@,
                decreases out.len() - k,
            {
                if str_eq(out[k].as_str(), r.asset_hex.as_str()) {
                    seen = true;
                }
                k = k + 1;
            }
            if !seen {
                out.push(r.asset_hex.clone());
                proof {
                    assert(out@[out.len() - 1]@ == refs@[i as int].asset_hex@);
                    assert forall|j: int| 0 <= j < i && wants_load(#[trigger] refs@[j], existing@) implies exists|k: int|
                        0 <= k < out.len() && #[trigger] out@[k]@ == refs@[j].asset_hex@ by {
                        let k = choose|k: int| 0 <= k < before.len() && #[trigger] before[k]@ == refs@[j].asset_hex@;
                        assert(out@[k] == before[k]);
                    }
                }
            }
        }
        i = i + 1;
    }
    out
}

/// Matches the chunk vector blobs the text store is missing with the
/// re-derived chunks that supply their text (`sets`, one entry per asset
/// re-chunked): a blob of another kind, or one already stored, is left
/// alone; a wanted blob with no chunk starting at its timestamp is counted
/// as skipped.
pub fn match_chunk_blobs(refs: &Vec<VectorBlobRef>, existing: &Vec<(String, i64)>, sets: &Vec<AssetChunks>) -> (p: ChunkLoadPlan)
    ensures
        p.loads@ == planned_loads(refs@, existing@, sets@, refs@.len()),
        p.skipped == planned_skips(refs@, existing@, sets@, refs@.len()),
{
    let mut loads: Vec<(usize, usize)> = Vec::new();
    let mut skipped: u64 = 0;
    let mut i: usize = 0;
    while i < refs.len()
        invariant
            i <= refs.len(),
            loads@ == planned_loads(refs@, existing@, sets@, i as nat),
            skipped == planned_skips(refs@, existing@, sets@, i as nat),
            skipped <= i,
        decreases refs.len() - i,
    {
        let r = &refs[i];
        if str_eq(r.kind.as_str(), "chunk") && !stored(existing, r.asset_hex.as_str(), r.ts_ms) {
            let found: Option<usize> = match find_set(sets, r.asset_hex.as_str()) {
                Some(s) => match &sets[s].chunks {
                    Some(cs) => find_chunk(cs, r.ts_ms),
                    None => None,
                },
                None => None,
            };
            proof {
                assert(wants_load(refs@[i as int], existing@));
            }
            match found {
                Some(c) => {
                    loads.push((i, c));
                },
                None => {
                    skipped = skipped + 1;
                },
            }
        } else {
            proof {
                reveal_strlit("chunk");
            }
        }
        i = i + 1;
    }
    ChunkLoadPlan { loads, skipped }
}

/// The note a text-store rebuild that skipped chunk blobs prints.
pub open spec fn rebuild_skip_note(skipped: nat) -> Seq<char> {
    "note: "@ + decimal(skipped)
        + " chunk vector blob(s) skipped in the text-store rebuild — transcript blob missing, or its chunking no longer matches"@
}

/// The note for `skipped` chunk blobs, or none when nothing was skipped.
pub fn text_rebuild_note(skipped: u64) -> (r: Option<String>)
    ensures
        skipped == 0 ==> r is None,
        skipped > 0 ==> (r matches Some(m) && m@ == rebuild_skip_note(skipped as nat)),
{
    if skipped == 0 {
        return None;
    }
    let mut m = String::new();
    m.append("note: ");
    push_decimal(&mut m, skipped);
    m.append(" chunk vector blob(s) skipped in the text-store rebuild — transcript blob missing, or its chunking no longer matches");
    Some(m)
}

/// How many rows the text-store rebuild hands the store at once.
pub const TEXT_STORE_BATCH: usize = 256;


/// An index pass request: which `--kinds` to run (each once, sorted; all
/// when empty), an optional per-kind item cap, an optional worker count,
/// and an API key for the describer.
#[derive(Debug)]
pub struct IndexRunReq {
    pub kinds: Vec<String>,
    pub limit: Option<usize>,
    pub threads: Option<usize>,
    pub api_key: Option<String>,
}

impl IndexRunReq {
    /// A request for `kinds`, taken as a set.
    pub fn new(kinds: &Vec<String>, limit: Option<usize>, threads: Option<usize>, api_key: Option<String>) -> (r: Self)
        ensures
            crate::text::strictly_sorted(r.kinds@),
            crate::text::key_set(r.kinds@) == Set::new(|k: Seq<char>| exists|i: int| 0 <= i < kinds.len() && #[trigger] kinds@[i]@ == k),
            r.limit == limit,
            r.threads == threads,
            r.api_key == api_key,
    {
        let mut set: Vec<String> = Vec::new();
        let mut i: usize = 0;
        while i < kinds.len()
            invariant
                i <= kinds.len(),
                crate::text::strictly_sorted(set@),
                crate::text::key_set(set@) == Set::new(|k: Seq<char>| exists|j: int| 0 <= j < i && #[trigger] kinds@[j]@ == k),
            decreases kinds.len() - i,
        {
            crate::text::insert_key(&mut set, kinds[i].as_str());
            proof {
                let now = Set::new(|k: Seq<char>| exists|j: int| 0 <= j < i + 1 && #[trigger] kinds@[j]@ == k);
                let was = Set::new(|k: Seq<char>| exists|j: int| 0 <= j < i && #[trigger] kinds@[j]@ == k);
                assert forall|k: Seq<char>| now.contains(k) <==> was.insert(kinds@[i as int]@).contains(k) by {
                    if now.contains(k) {
                        let j = choose|j: int| 0 <= j < i + 1 && #[trigger] kinds@[j]@ == k;
                        if j < i {
                            assert(was.contains(k));
                        }
                    }
                    if was.contains(k) {
                        let j = choose|j: int| 0 <= j < i && #[trigger] kinds@[j]@ == k;
                        assert(0 <= j < i + 1);
                    }
                }
                assert(now =~= was.insert(kinds@[i as int]@));
            }
            i = i + 1;
        }
        IndexRunReq { kinds: set, limit, threads, api_key }
    }
}


/// What captioning one item came to: captioned, or the item itself could
/// not be captioned (the pass moves on), or the describer backend failed
/// (it is down for every item, so the rest of the pass is abandoned).
#[derive(Debug)]
pub enum CaptionResult {
    Captioned,
    ItemFailed(String),
    BackendFailed(String),
}

/// The reason recorded for the items a describer outage skipped.
pub open spec fn describer_skipped_reason() -> Seq<char> {
    "describer unavailable — skipped after first failure"@
}

/// Folds caption item `index`'s result into the pass outcome and says
/// whether the pass goes on. An item failure is the item's own (permanent);
/// a backend failure is recorded as transient for the item and for every
/// later item, each skipped with the outage reason, and ends the pass.
pub fn record_caption(outcome: &mut CaptionOutcome, items: &Vec<WorkItem>, index: usize, result: CaptionResult) -> (go_on: bool)
    requires
        index < items.len(),
        old(outcome).written < u64::MAX,
    ensures
        result is Captioned ==> go_on && final(outcome).written == old(outcome).written + 1 && final(outcome).failed@ == old(outcome).failed@,
        result matches CaptionResult::ItemFailed(reason) ==> go_on && final(outcome).written == old(outcome).written
            && final(outcome).failed@ == old(outcome).failed@.push(
            ItemFailure { asset: items@[index as int].asset, path: items@[index as int].abs_path, error: reason, transient: false },
        ),
        result matches CaptionResult::BackendFailed(reason) ==> ({
            &&& !go_on
            &&& final(outcome).written == old(outcome).written
            &&& final(outcome).failed@.len() == old(outcome).failed@.len() + items.len() - index
            &&& final(outcome).failed@.subrange(0, old(outcome).failed@.len() as int) == old(outcome).failed@
            &&& final(outcome).failed@[old(outcome).failed@.len() as int] == ItemFailure {
                asset: items@[index as int].asset,
                path: items@[index as int].abs_path,
                error: reason,
                transient: true,
            }
            &&& forall|k: int|
                index < k < items.len() ==> {
                    let f = #[trigger] final(outcome).failed@[old(outcome).failed@.len() + k - index];
                    &&& f.asset == items@[k].asset
                    &&& f.path == items@[k].abs_path
                    &&& f.error@ == describer_skipped_reason()
                    &&& f.transient
                }
        }),
{
    match result {
        CaptionResult::Captioned => {
            outcome.written = outcome.written + 1;
            true
        },
        CaptionResult::ItemFailed(reason) => {
            outcome.failed.push(
                ItemFailure { asset: items[index].asset.clone(), path: items[index].abs_path.clone(), error: reason, transient: false },
            );
            true
        },
        CaptionResult::BackendFailed(reason) => {
            let ghost n0 = outcome.failed@.len();
            let ghost f0 = outcome.failed@;
            let ghost w0 = outcome.written;
            outcome.failed.push(
                ItemFailure { asset: items[index].asset.clone(), path: items[index].abs_path.clone(), error: reason, transient: true },
            );
            let ghost first = outcome.failed@[n0 as int];
            let mut k: usize = index + 1;
            while k < items.len()
                invariant
                    index < k <= items.len(),
                    outcome.written == w0,
                    outcome.failed@.len() == n0 + k - index,
                    outcome.failed@.subrange(0, n0 as int) == f0,
                    outcome.failed@[n0 as int] == first,
                    forall|j: int|
                        index < j < k ==> {
                            let f = #[trigger] outcome.failed@[n0 + j - index];
                            &&& f.asset == items@[j].asset
                            &&& f.path == items@[j].abs_path
                            &&& f.error@ == describer_skipped_reason()
                            &&& f.transient
                        },
                decreases items.len() - k,
            {
                let ghost before = outcome.failed@;
                outcome.failed.push(
                    ItemFailure {
                        asset: items[k].asset.clone(),
                        path: items[k].abs_path.clone(),
                        error: "describer unavailable — skipped after first failure".to_owned(),
                        transient: true,
                    },
                );
                proof {
                    assert(outcome.failed@.subrange(0, n0 as int) =~= before.subrange(0, n0 as int));
                    assert forall|j: int| index < j < k + 1 implies {
                        let f = #[trigger] outcome.failed@[n0 + j - index];
                        &&& f.asset == items@[j].asset
                        &&& f.path == items@[j].abs_path
                        &&& f.error@ == describer_skipped_reason()
                        &&& f.transient
                    } by {
                        if j < k {
                            assert(outcome.failed@[n0 + j - index] == before[n0 + j - index]);
                        }
                    }
                }
                k = k + 1;
            }
            false
        },
    }
}

} // verus!
