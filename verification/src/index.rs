//! The derivation queue's failure ledger: every permanent per-item failure
//! a catalog has accumulated, keyed by `--kinds` name, which the planner
//! holds back until an explicit retry. A pass's permanent failures are
//! folded into what is remembered, one row per asset per kind; only a
//! retry ever clears a kind.
use vstd::prelude::*;
use crate::notices::Notices;
use crate::error::ServiceError;
use crate::text::{
    cat, decimal, join_strings, joined, push_decimal, str_eq, string_views,
    holds_key, insert_key, key_set, lemma_key_set_len, lemma_sorted_distinct, slot_of,
    strictly_sorted,
};

verus! {

/// One remembered permanent failure: `asset` is what the planner matches
/// on; `path` and `error` are for display.
#[derive(Debug)]
pub struct LedgerRow {
    pub asset: String,
    pub path: String,
    pub error: String,
}

/// A copy of `row`.
pub fn copy_row(row: &LedgerRow) -> (c: LedgerRow)
    ensures
        c == *row,
{
    LedgerRow { asset: row.asset.clone(), path: row.path.clone(), error: row.error.clone() }
}

/// The position of `k` among distinct `keys`.
pub open spec fn key_index(keys: Seq<String>, k: Seq<char>) -> int {
    choose|i: int| 0 <= i < keys.len() && #[trigger] keys[i]@ == k
}

proof fn lemma_key_index(keys: Seq<String>, i: int)
    requires
        strictly_sorted(keys),
        0 <= i < keys.len(),
    ensures
        key_index(keys, keys[i]@) == i,
{
    let j = key_index(keys, keys[i]@);
    assert(keys[i]@ == keys[i]@);
    if j != i {
        lemma_sorted_distinct(keys, i, j);
    }
}

/// Every kind's remembered permanent failures, by `--kinds` name.
#[derive(Debug)]
pub struct Ledger {
    kinds: Vec<String>,
    rows: Vec<Vec<LedgerRow>>,
}

impl View for Ledger {
    type V = Map<Seq<char>, Seq<LedgerRow>>;

    closed spec fn view(&self) -> Map<Seq<char>, Seq<LedgerRow>> {
        Map::new(
            |k: Seq<char>| holds_key(self.kinds@, k),
            |k: Seq<char>| self.rows@[key_index(self.kinds@, k)]@,
        )
    }
}

impl Ledger {
    #[verifier::type_invariant]
    closed spec fn well_formed(self) -> bool {
        self.kinds.len() == self.rows.len() && strictly_sorted(self.kinds@)
    }

    /// An empty ledger.
    pub fn new() -> (l: Self)
        ensures
            l@ == Map::<Seq<char>, Seq<LedgerRow>>::empty(),
    {
        let l = Ledger { kinds: Vec::new(), rows: Vec::new() };
        assert(l@ =~= Map::<Seq<char>, Seq<LedgerRow>>::empty());
        l
    }

    /// Sets `kind`'s rows, replacing any it had.
    pub fn insert(&mut self, kind: String, rows: Vec<LedgerRow>)
        ensures
            final(self)@ == old(self)@.insert(kind@, rows@),
    {
        proof {
            use_type_invariant(&*self);
        }
        let ghost before = *self;
        let mut taken = Ledger::new();
        std::mem::swap(&mut taken, self);
        proof {
            use_type_invariant(&taken);
        }
        let Ledger { mut kinds, rows: mut all } = taken;
        let ghost old_kinds = kinds@;
        let ghost old_rows = all@;
        let (idx, inserted) = insert_key(&mut kinds, kind.as_str());
        if inserted {
            all.insert(idx, rows);
        } else {
            all.set(idx, rows);
        }
        proof {
            assert forall|j: int| 0 <= j < kinds.len() && kinds@[j]@ != kind@ implies all@[j]
                == if inserted {
                if j < idx {
                    old_rows[j]
                } else {
                    old_rows[j - 1]
                }
            } else {
                old_rows[j]
            } by {
                if !inserted {
                    assert(j != idx);
                }
            }
        }
        *self = Ledger { kinds, rows: all };
        proof {
            let after = *self;
            assert forall|k: Seq<char>| #[trigger] after@.contains_key(k) <==> before@.insert(
                kind@,
                rows@,
            ).contains_key(k) by {
                assert(key_set(after.kinds@).contains(k) == holds_key(after.kinds@, k));
                assert(key_set(old_kinds).contains(k) == holds_key(old_kinds, k));
            }
            assert forall|k: Seq<char>| #[trigger] after@.contains_key(k) implies after@[k]
                == before@.insert(kind@, rows@)[k] by {
                let j = key_index(after.kinds@, k);
                lemma_key_index(after.kinds@, j);
                if k == kind@ {
                    lemma_key_index(after.kinds@, idx as int);
                } else {
                    assert(holds_key(old_kinds, k));
                    let oj = key_index(old_kinds, k);
                    lemma_key_index(old_kinds, oj);
                    if inserted {
                        if j < idx {
                            assert(old_kinds[j]@ == k);
                            lemma_key_index(old_kinds, j);
                        } else {
                            assert(old_kinds[j - 1]@ == k);
                            lemma_key_index(old_kinds, j - 1);
                        }
                    } else {
                        assert(old_kinds[j]@ == k);
                        lemma_key_index(old_kinds, j);
                    }
                }
            }
            assert(after@ =~= before@.insert(kind@, rows@));
        }
    }

    /// `kind`'s rows, if the ledger remembers any.
    pub fn get(&self, kind: &str) -> (r: Option<&Vec<LedgerRow>>)
        ensures
            match r {
                Some(rows) => self@.contains_key(kind@) && rows@ == self@[kind@],
                None => !self@.contains_key(kind@),
            },
    {
        proof {
            use_type_invariant(self);
        }
        let (idx, found) = slot_of(&self.kinds, kind);
        if found {
            proof {
                lemma_key_index(self.kinds@, idx as int);
            }
            Some(&self.rows[idx])
        } else {
            None
        }
    }

    /// Whether the ledger remembers anything under `kind`.
    pub fn contains_key(&self, kind: &str) -> (r: bool)
        ensures
            r == self@.contains_key(kind@),
    {
        proof {
            use_type_invariant(self);
        }
        slot_of(&self.kinds, kind).1
    }

    /// How many kinds the ledger remembers failures under.
    pub fn len(&self) -> (n: usize)
        ensures
            n == self@.dom().len(),
    {
        proof {
            use_type_invariant(self);
            lemma_key_set_len(self.kinds@);
            assert(self@.dom() =~= key_set(self.kinds@));
        }
        self.kinds.len()
    }

    /// Whether the ledger remembers nothing.
    pub fn is_empty(&self) -> (r: bool)
        ensures
            r == (self@.dom().len() == 0),
    {
        self.len() == 0
    }

    /// The kinds the ledger remembers, in order.
    pub fn kinds(&self) -> (k: &Vec<String>)
        ensures
            k@ == self.kind_order(),
            strictly_sorted(k@),
            key_set(k@) == self@.dom(),
    {
        proof {
            use_type_invariant(self);
            assert(self@.dom() =~= key_set(self.kinds@));
        }
        &self.kinds
    }

    /// The kinds the ledger remembers, in order.
    pub closed spec fn kind_order(&self) -> Seq<String> {
        self.kinds@
    }

    /// Every remembered row, kind by kind in kind order.
    pub fn all_rows(&self) -> (rows: Vec<LedgerRow>)
        ensures
            rows@ == flatten_rows(self.kind_order(), self@),
            strictly_sorted(self.kind_order()),
            key_set(self.kind_order()) == self@.dom(),
    {
        proof {
            use_type_invariant(self);
            assert(self@.dom() =~= key_set(self.kinds@));
        }
        let mut rows: Vec<LedgerRow> = Vec::new();
        let mut i: usize = 0;
        while i < self.kinds.len()
            invariant
                i <= self.kinds.len(),
                self.kinds.len() == self.rows.len(),
                strictly_sorted(self.kinds@),
                rows@ == flatten_rows(self.kinds@.subrange(0, i as int), self@),
            decreases self.kinds.len() - i,
        {
            proof {
                assert(self.kinds@.subrange(0, i + 1).drop_last() =~= self.kinds@.subrange(0, i as int));
                lemma_key_index(self.kinds@, i as int);
                assert(self@[self.kinds@[i as int]@] == self.rows@[i as int]@);
            }
            copy_rows(&self.rows[i], &mut rows);
            i = i + 1;
        }
        assert(self.kinds@.subrange(0, self.kinds.len() as int) =~= self.kinds@);
        rows
    }

    /// Forgets `kind`, handing back the rows it held.
    pub fn remove(&mut self, kind: &str) -> (r: Option<Vec<LedgerRow>>)
        ensures
            final(self)@ == old(self)@.remove(kind@),
            match r {
                Some(rows) => old(self)@.contains_key(kind@) && rows@ == old(self)@[kind@],
                None => !old(self)@.contains_key(kind@),
            },
    {
        proof {
            use_type_invariant(&*self);
        }
        let ghost before = *self;
        let (idx, found) = slot_of(&self.kinds, kind);
        if !found {
            assert(before@.remove(kind@) =~= before@);
            return None;
        }
        proof {
            lemma_key_index(self.kinds@, idx as int);
        }
        let mut taken = Ledger::new();
        std::mem::swap(&mut taken, self);
        proof {
            use_type_invariant(&taken);
        }
        let Ledger { mut kinds, rows: mut all } = taken;
        let ghost old_kinds = kinds@;
        let ghost old_rows = all@;
        kinds.remove(idx);
        let gone = all.remove(idx);
        proof {
            assert forall|i: int, j: int| 0 <= i < j < kinds.len() implies crate::text::seq_lt(
                #[trigger] kinds@[i]@,
                #[trigger] kinds@[j]@,
            ) by {
                if i < idx && j >= idx {
                    assert(kinds@[j] == old_kinds[j + 1]);
                } else if i >= idx {
                    assert(kinds@[i] == old_kinds[i + 1]);
                    assert(kinds@[j] == old_kinds[j + 1]);
                }
            }
        }
        *self = Ledger { kinds, rows: all };
        proof {
            let after = *self;
            assert forall|k: Seq<char>| #[trigger] after@.contains_key(k) <==> before@.remove(
                kind@,
            ).contains_key(k) by {
                if holds_key(after.kinds@, k) {
                    let w = choose|w: int| 0 <= w < after.kinds@.len() && #[trigger] after.kinds@[w]@ == k;
                    if w < idx {
                        assert(old_kinds[w]@ == k);
                        lemma_sorted_distinct(old_kinds, w, idx as int);
                    } else {
                        assert(old_kinds[w + 1]@ == k);
                        lemma_sorted_distinct(old_kinds, w + 1, idx as int);
                    }
                }
                if before@.remove(kind@).contains_key(k) {
                    let w = choose|w: int| 0 <= w < old_kinds.len() && #[trigger] old_kinds[w]@ == k;
                    assert(w != idx);
                    if w < idx {
                        assert(after.kinds@[w]@ == k);
                    } else {
                        assert(after.kinds@[w - 1]@ == k);
                    }
                }
            }
            assert forall|k: Seq<char>| #[trigger] after@.contains_key(k) implies after@[k]
                == before@.remove(kind@)[k] by {
                let j = key_index(after.kinds@, k);
                lemma_key_index(after.kinds@, j);
                if j < idx {
                    assert(old_kinds[j]@ == k);
                    lemma_key_index(old_kinds, j);
                } else {
                    assert(old_kinds[j + 1]@ == k);
                    lemma_key_index(old_kinds, j + 1);
                }
            }
            assert(after@ =~= before@.remove(kind@));
        }
        Some(gone)
    }
}


/// The last row of `src` for asset `a`, if any.
pub open spec fn last_for_asset(src: Seq<LedgerRow>, a: Seq<char>) -> Option<LedgerRow>
    decreases src.len(),
{
    if src.len() == 0 {
        None
    } else if src.last().asset@ == a {
        Some(src.last())
    } else {
        last_for_asset(src.drop_last(), a)
    }
}

/// The assets `src` has rows for.
pub open spec fn row_assets(src: Seq<LedgerRow>) -> Set<Seq<char>> {
    Set::new(|a: Seq<char>| exists|i: int| 0 <= i < src.len() && #[trigger] src[i].asset@ == a)
}

/// The asset of each row, in order.
pub open spec fn asset_keys(rows: Seq<LedgerRow>) -> Seq<String> {
    rows.map_values(|r: LedgerRow| r.asset)
}

/// `out` is `src` reduced to one row per asset — the last row `src` holds
/// for it, so the freshest error text survives — in asset order.
pub open spec fn one_row_per_asset(out: Seq<LedgerRow>, src: Seq<LedgerRow>) -> bool {
    &&& strictly_sorted(asset_keys(out))
    &&& key_set(asset_keys(out)) == row_assets(src)
    &&& forall|i: int| 0 <= i < out.len() ==> last_for_asset(src, (#[trigger] out[i]).asset@) == Some(out[i])
}

proof fn lemma_last_for_asset_some(src: Seq<LedgerRow>, a: Seq<char>)
    ensures
        last_for_asset(src, a) is Some <==> row_assets(src).contains(a),
        last_for_asset(src, a) matches Some(r) ==> r.asset@ == a && exists|i: int|
            0 <= i < src.len() && src[i] == r,
    decreases src.len(),
{
    if src.len() > 0 {
        let rest = src.drop_last();
        lemma_last_for_asset_some(rest, a);
        if row_assets(src).contains(a) && src.last().asset@ != a {
            let w = choose|w: int| 0 <= w < src.len() && #[trigger] src[w].asset@ == a;
            assert(rest[w].asset@ == a);
        }
        if row_assets(rest).contains(a) {
            let w = choose|w: int| 0 <= w < rest.len() && #[trigger] rest[w].asset@ == a;
            assert(src[w].asset@ == a);
        }
        if src.last().asset@ == a {
            assert(src[src.len() - 1].asset@ == a);
        }
        if last_for_asset(rest, a) is Some && src.last().asset@ != a {
            let r = last_for_asset(rest, a)->0;
            let w = choose|w: int| 0 <= w < rest.len() && rest[w] == r;
            assert(src[w] == r);
        }
    }
}

/// `src` reduced to one row per asset, the last one winning, in asset order.
pub fn rows_by_asset(src: &Vec<LedgerRow>) -> (out: Vec<LedgerRow>)
    ensures
        one_row_per_asset(out@, src@),
{
    let mut keys: Vec<String> = Vec::new();
    let mut out: Vec<LedgerRow> = Vec::new();
    let mut i: usize = 0;
    assert(key_set(keys@) =~= row_assets(src@.subrange(0, 0)));
    while i < src.len()
        invariant
            i <= src.len(),
            keys.len() == out.len(),
            forall|j: int| 0 <= j < keys.len() ==> (#[trigger] keys@[j])@ == out@[j].asset@,
            strictly_sorted(keys@),
            key_set(keys@) == row_assets(src@.subrange(0, i as int)),
            forall|j: int|
                0 <= j < out.len() ==> last_for_asset(src@.subrange(0, i as int), (#[trigger] out@[j]).asset@)
                    == Some(out@[j]),
        decreases src.len() - i,
    {
        let ghost done = src@.subrange(0, i as int);
        let ghost next = src@.subrange(0, i + 1);
        let ghost a = src@[i as int].asset@;
        proof {
            assert(next.drop_last() =~= done);
            assert(next.last() == src@[i as int]);
            assert forall|x: Seq<char>| #[trigger] row_assets(next).contains(x) <==> (row_assets(
                done,
            ).contains(x) || x == a) by {
                if row_assets(next).contains(x) {
                    let w = choose|w: int| 0 <= w < next.len() && #[trigger] next[w].asset@ == x;
                    if w < i {
                        assert(done[w].asset@ == x);
                    }
                }
                if row_assets(done).contains(x) {
                    let w = choose|w: int| 0 <= w < done.len() && #[trigger] done[w].asset@ == x;
                    assert(next[w].asset@ == x);
                }
                if x == a {
                    assert(next[i as int].asset@ == x);
                }
            }
            assert(row_assets(next) =~= row_assets(done).insert(a));
        }
        let ghost old_out = out@;
        let ghost old_keys = keys@;
        let (idx, inserted) = insert_key(&mut keys, src[i].asset.as_str());
        let row = copy_row(&src[i]);
        if inserted {
            out.insert(idx, row);
        } else {
            out.set(idx, row);
        }
        proof {
            assert forall|j: int| 0 <= j < keys.len() implies (#[trigger] keys@[j])@ == out@[j].asset@ by {
                if j != idx {
                    if inserted {
                        if j < idx {
                            assert(old_keys[j] == keys@[j]);
                        } else {
                            assert(old_keys[j - 1] == keys@[j]);
                        }
                    }
                }
            }
            assert forall|j: int| 0 <= j < out.len() implies last_for_asset(next, (#[trigger] out@[j]).asset@)
                == Some(out@[j]) by {
                if j != idx {
                    let oj = if inserted && j > idx {
                        j - 1
                    } else {
                        j
                    };
                    assert(out@[j] == old_out[oj]);
                    assert(keys@[j] == old_keys[oj]);
                    lemma_sorted_distinct(keys@, j, idx as int);
                }
            }
        }
        i = i + 1;
    }
    proof {
        assert(src@.subrange(0, src.len() as int) =~= src@);
        assert forall|p: int, q: int| 0 <= p < q < out.len() implies crate::text::seq_lt(
            #[trigger] asset_keys(out@)[p]@,
            #[trigger] asset_keys(out@)[q]@,
        ) by {
            assert(keys@[p]@ == out@[p].asset@);
            assert(keys@[q]@ == out@[q].asset@);
        }
        assert forall|x: Seq<char>| key_set(asset_keys(out@)).contains(x) <==> key_set(keys@).contains(x) by {
            if holds_key(asset_keys(out@), x) {
                let w = choose|w: int| 0 <= w < out.len() && #[trigger] asset_keys(out@)[w]@ == x;
                assert(keys@[w]@ == x);
            }
            if holds_key(keys@, x) {
                let w = choose|w: int| 0 <= w < keys.len() && #[trigger] keys@[w]@ == x;
                assert(asset_keys(out@)[w]@ == x);
            }
        }
        assert(key_set(asset_keys(out@)) =~= key_set(keys@));
    }
    out
}


/// One item a derivation pass could not produce. A `transient` failure was
/// never really attempted (its volume vanished, its credentials were
/// refused) and is never remembered.
#[derive(Debug)]
pub struct ItemFailure {
    pub asset: String,
    pub path: String,
    pub error: String,
    pub transient: bool,
}

/// A copy of `f`.
pub fn copy_failure(f: &ItemFailure) -> (c: ItemFailure)
    ensures
        c == *f,
{
    ItemFailure {
        asset: f.asset.clone(),
        path: f.path.clone(),
        error: f.error.clone(),
        transient: f.transient,
    }
}

/// The ledger row a failure is remembered as.
pub open spec fn failure_row(f: ItemFailure) -> LedgerRow {
    LedgerRow { asset: f.asset, path: f.path, error: f.error }
}

/// The ledger rows of `failed`'s permanent failures, in order.
pub open spec fn permanent_rows(failed: Seq<ItemFailure>) -> Seq<LedgerRow>
    decreases failed.len(),
{
    if failed.len() == 0 {
        Seq::empty()
    } else {
        let rest = permanent_rows(failed.drop_last());
        if failed.last().transient {
            rest
        } else {
            rest.push(failure_row(failed.last()))
        }
    }
}

/// One kind's permanent failures as ledger rows: transient ones dropped,
/// and at most one row per asset, the last failure winning.
pub fn rows_for(failed: &Vec<ItemFailure>) -> (rows: Vec<LedgerRow>)
    ensures
        one_row_per_asset(rows@, permanent_rows(failed@)),
{
    let mut kept: Vec<LedgerRow> = Vec::new();
    let mut i: usize = 0;
    while i < failed.len()
        invariant
            i <= failed.len(),
            kept@ == permanent_rows(failed@.subrange(0, i as int)),
        decreases failed.len() - i,
    {
        proof {
            assert(failed@.subrange(0, i + 1).drop_last() =~= failed@.subrange(0, i as int));
        }
        if !failed[i].transient {
            let f = &failed[i];
            kept.push(LedgerRow { asset: f.asset.clone(), path: f.path.clone(), error: f.error.clone() });
        }
        i = i + 1;
    }
    assert(failed@.subrange(0, failed.len() as int) =~= failed@);
    rows_by_asset(&kept)
}

fn copy_failures(src: &Vec<ItemFailure>, dst: &mut Vec<ItemFailure>)
    ensures
        final(dst)@ == old(dst)@ + src@,
{
    let ghost start = dst@;
    let mut i: usize = 0;
    while i < src.len()
        invariant
            i <= src.len(),
            dst@ == start + src@.subrange(0, i as int),
        decreases src.len() - i,
    {
        dst.push(copy_failure(&src[i]));
        i = i + 1;
        assert(dst@ =~= start + src@.subrange(0, i as int));
    }
    assert(src@.subrange(0, src.len() as int) =~= src@);
}

/// Thumbnails written, and the items that failed.
#[derive(Debug)]
pub struct ThumbOutcome {
    pub written: u64,
    pub failed: Vec<ItemFailure>,
}

impl Default for ThumbOutcome {
    fn default() -> (o: Self)
        ensures
            o.written == 0 && o.failed@.len() == 0,
    {
        ThumbOutcome { written: 0, failed: Vec::new() }
    }
}

/// Image embeddings written and loaded, and the items that failed.
#[derive(Debug)]
pub struct EmbedOutcome {
    pub written: u64,
    pub loaded: u64,
    pub failed: Vec<ItemFailure>,
}

impl Default for EmbedOutcome {
    fn default() -> (o: Self)
        ensures
            o.written == 0 && o.loaded == 0 && o.failed@.len() == 0,
    {
        EmbedOutcome { written: 0, loaded: 0, failed: Vec::new() }
    }
}

/// Videos whose keyframes were extracted, keyframes written and failed, and the items that failed.
#[derive(Debug)]
pub struct KeyframeOutcome {
    pub videos_done: u64,
    pub keyframes_written: u64,
    pub keyframes_failed: u64,
    pub failed: Vec<ItemFailure>,
}

impl Default for KeyframeOutcome {
    fn default() -> (o: Self)
        ensures
            o.videos_done == 0 && o.keyframes_written == 0 && o.keyframes_failed == 0 && o.failed@.len() == 0,
    {
        KeyframeOutcome { videos_done: 0, keyframes_written: 0, keyframes_failed: 0, failed: Vec::new() }
    }
}

/// Keyframe images written, and the items that failed.
#[derive(Debug)]
pub struct KeyframeImageOutcome {
    pub written: u64,
    pub failed: Vec<ItemFailure>,
}

impl Default for KeyframeImageOutcome {
    fn default() -> (o: Self)
        ensures
            o.written == 0 && o.failed@.len() == 0,
    {
        KeyframeImageOutcome { written: 0, failed: Vec::new() }
    }
}

/// Transcripts written, and the items that failed.
#[derive(Debug)]
pub struct TranscribeOutcome {
    pub written: u64,
    pub failed: Vec<ItemFailure>,
}

impl Default for TranscribeOutcome {
    fn default() -> (o: Self)
        ensures
            o.written == 0 && o.failed@.len() == 0,
    {
        TranscribeOutcome { written: 0, failed: Vec::new() }
    }
}

/// Transcript chunks embedded and loaded, transcripts with nothing to embed, and the items that failed.
#[derive(Debug)]
pub struct TranscriptEmbedOutcome {
    pub chunks_written: u64,
    pub loaded: u64,
    pub empty: u64,
    pub failed: Vec<ItemFailure>,
}

impl Default for TranscriptEmbedOutcome {
    fn default() -> (o: Self)
        ensures
            o.chunks_written == 0 && o.loaded == 0 && o.empty == 0 && o.failed@.len() == 0,
    {
        TranscriptEmbedOutcome { chunks_written: 0, loaded: 0, empty: 0, failed: Vec::new() }
    }
}

/// Still images and videos read, keyframe text written, and the items that failed.
#[derive(Debug)]
pub struct OcrOutcome {
    pub images_written: u64,
    pub videos_done: u64,
    pub keyframes_written: u64,
    pub failed: Vec<ItemFailure>,
}

impl Default for OcrOutcome {
    fn default() -> (o: Self)
        ensures
            o.images_written == 0 && o.videos_done == 0 && o.keyframes_written == 0 && o.failed@.len() == 0,
    {
        OcrOutcome { images_written: 0, videos_done: 0, keyframes_written: 0, failed: Vec::new() }
    }
}

/// PDF texts written, and the items that failed.
#[derive(Debug)]
pub struct PdfOutcome {
    pub written: u64,
    pub failed: Vec<ItemFailure>,
}

impl Default for PdfOutcome {
    fn default() -> (o: Self)
        ensures
            o.written == 0 && o.failed@.len() == 0,
    {
        PdfOutcome { written: 0, failed: Vec::new() }
    }
}

/// Captions written, and the items that failed.
#[derive(Debug)]
pub struct CaptionOutcome {
    pub written: u64,
    pub failed: Vec<ItemFailure>,
}

impl Default for CaptionOutcome {
    fn default() -> (o: Self)
        ensures
            o.written == 0 && o.failed@.len() == 0,
    {
        CaptionOutcome { written: 0, failed: Vec::new() }
    }
}

/// Everything one `maj index run` pass did, per derivation kind, and the
/// diagnostics it collected.
#[derive(Debug)]
pub struct IndexRunOutcome {
    pub thumbs: ThumbOutcome,
    pub embed: EmbedOutcome,
    pub keyframes: KeyframeOutcome,
    pub keyframe_images: KeyframeImageOutcome,
    pub transcribe: TranscribeOutcome,
    pub transcript_embed: TranscriptEmbedOutcome,
    pub ocr: OcrOutcome,
    pub pdf: PdfOutcome,
    pub captions: CaptionOutcome,
    pub notices: Vec<String>,
}

impl Default for IndexRunOutcome {
    fn default() -> (o: Self)
        ensures
            o.thumbs.failed@.len() == 0 && o.embed.failed@.len() == 0 && o.keyframes.failed@.len()
                == 0 && o.keyframe_images.failed@.len() == 0 && o.transcribe.failed@.len() == 0
                && o.transcript_embed.failed@.len() == 0 && o.ocr.failed@.len() == 0
                && o.pdf.failed@.len() == 0 && o.captions.failed@.len() == 0 && o.notices@.len()
                == 0,
    {
        IndexRunOutcome {
            thumbs: ThumbOutcome::default(),
            embed: EmbedOutcome::default(),
            keyframes: KeyframeOutcome::default(),
            keyframe_images: KeyframeImageOutcome::default(),
            transcribe: TranscribeOutcome::default(),
            transcript_embed: TranscriptEmbedOutcome::default(),
            ocr: OcrOutcome::default(),
            pdf: PdfOutcome::default(),
            captions: CaptionOutcome::default(),
            notices: Vec::new(),
        }
    }
}

impl IndexRunOutcome {
    /// The `transcripts` kind spans two stages: transcription's failures,
    /// then transcript embedding's.
    pub fn transcript_failures(&self) -> (merged: Vec<ItemFailure>)
        ensures
            merged@ == self.transcribe.failed@ + self.transcript_embed.failed@,
    {
        let mut merged: Vec<ItemFailure> = Vec::new();
        copy_failures(&self.transcribe.failed, &mut merged);
        copy_failures(&self.transcript_embed.failed, &mut merged);
        assert(merged@ =~= self.transcribe.failed@ + self.transcript_embed.failed@);
        merged
    }
}


proof fn lemma_one_row_per_asset_empty(out: Seq<LedgerRow>, src: Seq<LedgerRow>)
    requires
        one_row_per_asset(out, src),
    ensures
        out.len() == 0 <==> src.len() == 0,
{
    if out.len() > 0 {
        assert(key_set(asset_keys(out)).contains(out[0].asset@)) by {
            assert(asset_keys(out)[0]@ == out[0].asset@);
        }
        let w = choose|w: int| 0 <= w < src.len() && #[trigger] src[w].asset@ == out[0].asset@;
    }
    if src.len() > 0 {
        assert(row_assets(src).contains(src[0].asset@));
        let w = choose|w: int| 0 <= w < out.len() && #[trigger] asset_keys(out)[w]@ == src[0].asset@;
    }
}

/// `m` holds `kind`'s permanent failures from `failed` exactly as the
/// ledger records them, or nothing under `kind` when there are none.
pub open spec fn kind_entry(m: Map<Seq<char>, Seq<LedgerRow>>, kind: Seq<char>, failed: Seq<ItemFailure>) -> bool {
    if permanent_rows(failed).len() > 0 {
        m.contains_key(kind) && one_row_per_asset(m[kind], permanent_rows(failed))
    } else {
        !m.contains_key(kind)
    }
}

/// The `--kinds` names the ledger keys by.
pub open spec fn is_kind_name(k: Seq<char>) -> bool {
    ||| k == "thumbs"@
    ||| k == "embeddings"@
    ||| k == "keyframes"@
    ||| k == "keyframe-images"@
    ||| k == "transcripts"@
    ||| k == "ocr"@
    ||| k == "pdf"@
    ||| k == "captions"@
}

/// `m` is a pass's permanent failures: keyed by `--kinds` name, each kind
/// holding its permanent failures one row per asset, with both
/// transcription stages under `transcripts`; kinds without any omitted.
pub open spec fn pass_ledger(m: Map<Seq<char>, Seq<LedgerRow>>, o: IndexRunOutcome) -> bool {
    &&& forall|k: Seq<char>| #[trigger] m.contains_key(k) ==> is_kind_name(k)
    &&& kind_entry(m, "thumbs"@, o.thumbs.failed@)
    &&& kind_entry(m, "embeddings"@, o.embed.failed@)
    &&& kind_entry(m, "keyframes"@, o.keyframes.failed@)
    &&& kind_entry(m, "keyframe-images"@, o.keyframe_images.failed@)
    &&& kind_entry(m, "transcripts"@, o.transcribe.failed@ + o.transcript_embed.failed@)
    &&& kind_entry(m, "ocr"@, o.ocr.failed@)
    &&& kind_entry(m, "pdf"@, o.pdf.failed@)
    &&& kind_entry(m, "captions"@, o.captions.failed@)
}

fn add_kind(ledger: &mut Ledger, kind: &str, failed: &Vec<ItemFailure>)
    ensures
        permanent_rows(failed@).len() == 0 ==> final(ledger)@ == old(ledger)@,
        permanent_rows(failed@).len() > 0 ==> {
            &&& final(ledger)@ == old(ledger)@.insert(kind@, final(ledger)@[kind@])
            &&& one_row_per_asset(final(ledger)@[kind@], permanent_rows(failed@))
        },
{
    let rows = rows_for(failed);
    proof {
        lemma_one_row_per_asset_empty(rows@, permanent_rows(failed@));
    }
    if rows.len() > 0 {
        ledger.insert(kind.to_owned(), rows);
    }
}

/// A pass's permanent failures as a ledger fragment: transient failures
/// dropped, one row per asset per kind, kinds with nothing permanent left
/// out. Both transcription stages file under `transcripts`.
pub fn permanent_failures(outcome: &IndexRunOutcome) -> (l: Ledger)
    ensures
        pass_ledger(l@, *outcome),
{
    proof {
        reveal_strlit("thumbs");
        reveal_strlit("embeddings");
        reveal_strlit("keyframes");
        reveal_strlit("keyframe-images");
        reveal_strlit("transcripts");
        reveal_strlit("ocr");
        reveal_strlit("pdf");
        reveal_strlit("captions");
        assert("thumbs"@.len() == 6);
        assert("embeddings"@.len() == 10);
        assert("keyframes"@.len() == 9);
        assert("keyframe-images"@.len() == 15);
        assert("transcripts"@.len() == 11);
        assert("ocr"@.len() == 3);
        assert("pdf"@.len() == 3);
        assert("captions"@.len() == 8);
        assert("ocr"@[0] != "pdf"@[0]);
    }
    let mut l = Ledger::new();
    let transcripts = outcome.transcript_failures();
    add_kind(&mut l, "thumbs", &outcome.thumbs.failed);
    let ghost l1 = l@;
    add_kind(&mut l, "embeddings", &outcome.embed.failed);
    let ghost l2 = l@;
    add_kind(&mut l, "keyframes", &outcome.keyframes.failed);
    let ghost l3 = l@;
    add_kind(&mut l, "keyframe-images", &outcome.keyframe_images.failed);
    let ghost l4 = l@;
    add_kind(&mut l, "transcripts", &transcripts);
    let ghost l5 = l@;
    add_kind(&mut l, "ocr", &outcome.ocr.failed);
    let ghost l6 = l@;
    add_kind(&mut l, "pdf", &outcome.pdf.failed);
    let ghost l7 = l@;
    add_kind(&mut l, "captions", &outcome.captions.failed);
    proof {
        let m = l@;
        assert(kind_entry(l1, "thumbs"@, outcome.thumbs.failed@));
        assert(kind_entry(l2, "thumbs"@, outcome.thumbs.failed@));
        assert(kind_entry(l3, "thumbs"@, outcome.thumbs.failed@));
        assert(kind_entry(l4, "thumbs"@, outcome.thumbs.failed@));
        assert(kind_entry(l5, "thumbs"@, outcome.thumbs.failed@));
        assert(kind_entry(l6, "thumbs"@, outcome.thumbs.failed@));
        assert(kind_entry(l7, "thumbs"@, outcome.thumbs.failed@));
        assert(kind_entry(m, "thumbs"@, outcome.thumbs.failed@));
        assert(kind_entry(l2, "embeddings"@, outcome.embed.failed@));
        assert(kind_entry(l3, "embeddings"@, outcome.embed.failed@));
        assert(kind_entry(l4, "embeddings"@, outcome.embed.failed@));
        assert(kind_entry(l5, "embeddings"@, outcome.embed.failed@));
        assert(kind_entry(l6, "embeddings"@, outcome.embed.failed@));
        assert(kind_entry(l7, "embeddings"@, outcome.embed.failed@));
        assert(kind_entry(m, "embeddings"@, outcome.embed.failed@));
        assert(kind_entry(l3, "keyframes"@, outcome.keyframes.failed@));
        assert(kind_entry(l4, "keyframes"@, outcome.keyframes.failed@));
        assert(kind_entry(l5, "keyframes"@, outcome.keyframes.failed@));
        assert(kind_entry(l6, "keyframes"@, outcome.keyframes.failed@));
        assert(kind_entry(l7, "keyframes"@, outcome.keyframes.failed@));
        assert(kind_entry(m, "keyframes"@, outcome.keyframes.failed@));
        assert(kind_entry(l4, "keyframe-images"@, outcome.keyframe_images.failed@));
        assert(kind_entry(l5, "keyframe-images"@, outcome.keyframe_images.failed@));
        assert(kind_entry(l6, "keyframe-images"@, outcome.keyframe_images.failed@));
        assert(kind_entry(l7, "keyframe-images"@, outcome.keyframe_images.failed@));
        assert(kind_entry(m, "keyframe-images"@, outcome.keyframe_images.failed@));
        assert(kind_entry(l5, "transcripts"@, transcripts@));
        assert(kind_entry(l6, "transcripts"@, transcripts@));
        assert(kind_entry(l7, "transcripts"@, transcripts@));
        assert(kind_entry(m, "transcripts"@, transcripts@));
        assert(kind_entry(l6, "ocr"@, outcome.ocr.failed@));
        assert(kind_entry(l7, "ocr"@, outcome.ocr.failed@));
        assert(kind_entry(m, "ocr"@, outcome.ocr.failed@));
        assert(kind_entry(l7, "pdf"@, outcome.pdf.failed@));
        assert(kind_entry(m, "pdf"@, outcome.pdf.failed@));
        assert forall|k: Seq<char>| #[trigger] m.contains_key(k) implies is_kind_name(k) by {
            assert(l1.contains_key(k) ==> k == "thumbs"@);
        }
    }
    l
}


/// `kind`'s rows in `m`, or none.
pub open spec fn rows_or_empty(m: Map<Seq<char>, Seq<LedgerRow>>, kind: Seq<char>) -> Seq<LedgerRow> {
    if m.contains_key(kind) {
        m[kind]
    } else {
        Seq::empty()
    }
}

/// `out` folds `cur` over `prev`: every kind of either; a kind `cur` holds
/// gets one row per asset over the old rows then the new, the newer row
/// winning; a kind only `prev` holds keeps its rows verbatim.
pub open spec fn merged_ledgers(
    out: Map<Seq<char>, Seq<LedgerRow>>,
    prev: Map<Seq<char>, Seq<LedgerRow>>,
    cur: Map<Seq<char>, Seq<LedgerRow>>,
) -> bool {
    &&& out.dom() == prev.dom().union(cur.dom())
    &&& forall|k: Seq<char>| #[trigger]
        cur.contains_key(k) ==> one_row_per_asset(out[k], rows_or_empty(prev, k) + cur[k])
    &&& forall|k: Seq<char>| #[trigger]
        prev.contains_key(k) && !cur.contains_key(k) ==> out[k] == prev[k]
}

fn copy_rows(src: &Vec<LedgerRow>, dst: &mut Vec<LedgerRow>)
    ensures
        final(dst)@ == old(dst)@ + src@,
{
    let ghost start = dst@;
    let mut i: usize = 0;
    while i < src.len()
        invariant
            i <= src.len(),
            dst@ == start + src@.subrange(0, i as int),
        decreases src.len() - i,
    {
        dst.push(copy_row(&src[i]));
        i = i + 1;
        assert(dst@ =~= start + src@.subrange(0, i as int));
    }
    assert(src@.subrange(0, src.len() as int) =~= src@);
}

/// The kinds among the first `i` of `keys`.
pub open spec fn first_keys(keys: Seq<String>, i: int) -> Set<Seq<char>> {
    Set::new(|k: Seq<char>| exists|j: int| 0 <= j < i && #[trigger] keys[j]@ == k)
}

/// Folds `current` over `previous`, per kind, one row per asset: a
/// re-failed item's row is replaced, never duplicated, and a kind
/// `current` does not hold keeps its rows.
pub fn merge_ledger(previous: Ledger, current: &Ledger) -> (merged: Ledger)
    ensures
        merged_ledgers(merged@, previous@, current@),
{
    proof {
        use_type_invariant(current);
    }
    let ghost prev = previous@;
    let mut merged = previous;
    let mut i: usize = 0;
    assert(merged@.dom() =~= prev.dom().union(first_keys(current.kinds@, 0)));
    while i < current.kinds.len()
        invariant
            i <= current.kinds.len(),
            current.kinds.len() == current.rows.len(),
            strictly_sorted(current.kinds@),
            merged@.dom() == prev.dom().union(first_keys(current.kinds@, i as int)),
            forall|j: int|
                0 <= j < i ==> one_row_per_asset(
                    merged@[(#[trigger] current.kinds@[j])@],
                    rows_or_empty(prev, current.kinds@[j]@) + current.rows@[j]@,
                ),
            forall|k: Seq<char>|
                #[trigger] prev.contains_key(k) && !first_keys(current.kinds@, i as int).contains(k)
                    ==> merged@[k] == prev[k],
        decreases current.kinds.len() - i,
    {
        let kind = &current.kinds[i];
        let ghost before = merged@;
        proof {
            if first_keys(current.kinds@, i as int).contains(kind@) {
                let w = choose|w: int| 0 <= w < i && #[trigger] current.kinds@[w]@ == kind@;
                lemma_sorted_distinct(current.kinds@, w, i as int);
            }
        }
        let taken = merged.remove(kind.as_str());
        let mut combined: Vec<LedgerRow> = match taken {
            Some(v) => v,
            None => Vec::new(),
        };
        assert(combined@ == rows_or_empty(prev, kind@));
        copy_rows(&current.rows[i], &mut combined);
        let deduped = rows_by_asset(&combined);
        merged.insert(kind.clone(), deduped);
        proof {
            assert forall|x: Seq<char>| #[trigger] first_keys(current.kinds@, i + 1).contains(x) <==> (
            first_keys(current.kinds@, i as int).contains(x) || x == kind@) by {
                if first_keys(current.kinds@, i + 1).contains(x) {
                    let w = choose|w: int| 0 <= w < i + 1 && #[trigger] current.kinds@[w]@ == x;
                    if w < i {
                        assert(current.kinds@[w]@ == x);
                    }
                }
                if first_keys(current.kinds@, i as int).contains(x) {
                    let w = choose|w: int| 0 <= w < i && #[trigger] current.kinds@[w]@ == x;
                    assert(current.kinds@[w]@ == x);
                }
                if x == kind@ {
                    assert(current.kinds@[i as int]@ == x);
                }
            }
            assert(merged@.dom() =~= prev.dom().union(first_keys(current.kinds@, i + 1)));
            assert forall|j: int| 0 <= j < i + 1 implies one_row_per_asset(
                merged@[(#[trigger] current.kinds@[j])@],
                rows_or_empty(prev, current.kinds@[j]@) + current.rows@[j]@,
            ) by {
                if j < i {
                    lemma_sorted_distinct(current.kinds@, j, i as int);
                    assert(merged@[current.kinds@[j]@] == before[current.kinds@[j]@]);
                }
            }
        }
        i = i + 1;
    }
    proof {
        let cur = current@;
        assert(first_keys(current.kinds@, current.kinds.len() as int) =~= cur.dom());
        assert forall|k: Seq<char>| #[trigger] cur.contains_key(k) implies one_row_per_asset(
            merged@[k],
            rows_or_empty(prev, k) + cur[k],
        ) by {
            let j = key_index(current.kinds@, k);
            lemma_key_index(current.kinds@, j);
            assert(current.kinds@[j]@ == k);
        }
    }
    merged
}

/// Folds a pass's permanent failures into the ledger read back from disk,
/// so the planner holds those items back until an explicit retry.
pub fn record_failures(previous: Ledger, outcome: &IndexRunOutcome) -> (merged: Ledger)
    ensures
        exists|pass: Map<Seq<char>, Seq<LedgerRow>>|
            pass_ledger(pass, *outcome) && #[trigger] merged_ledgers(merged@, previous@, pass),
{
    let pass = permanent_failures(outcome);
    let merged = merge_ledger(previous, &pass);
    assert(pass_ledger(pass@, *outcome) && merged_ledgers(merged@, previous@, pass@));
    merged
}

/// The rows clearing `kinds` (in order) from `m` removes: each kind's rows
/// once, the first time it is named.
pub open spec fn cleared_rows(m: Map<Seq<char>, Seq<LedgerRow>>, kinds: Seq<Seq<char>>) -> nat
    decreases kinds.len(),
{
    if kinds.len() == 0 {
        0
    } else {
        let k = kinds.last();
        cleared_rows(m, kinds.drop_last()) + if m.contains_key(k) && !kinds.drop_last().contains(k) {
            m[k].len()
        } else {
            0nat
        }
    }
}

proof fn lemma_cleared_prefix(m: Map<Seq<char>, Seq<LedgerRow>>, kinds: Seq<Seq<char>>, i: int)
    requires
        0 <= i <= kinds.len(),
    ensures
        cleared_rows(m, kinds.subrange(0, i)) <= cleared_rows(m, kinds),
    decreases kinds.len(),
{
    if i < kinds.len() {
        lemma_cleared_prefix(m, kinds.drop_last(), i);
        assert(kinds.drop_last().subrange(0, i) =~= kinds.subrange(0, i));
    } else {
        assert(kinds.subrange(0, i) =~= kinds);
    }
}

/// Forgets every remembered failure for `kinds`, so the next plan queues
/// those items again; returns how many rows went. The one way a ledger row
/// ever goes away.
pub fn clear_failures(ledger: &mut Ledger, kinds: &Vec<String>) -> (cleared: u64)
    requires
        cleared_rows(old(ledger)@, crate::text::string_views(kinds@)) <= u64::MAX,
    ensures
        final(ledger)@ == old(ledger)@.remove_keys(crate::text::string_views(kinds@).to_set()),
        cleared == cleared_rows(old(ledger)@, crate::text::string_views(kinds@)),
{
    let ghost orig = ledger@;
    let ghost names = crate::text::string_views(kinds@);
    let mut cleared: u64 = 0;
    let mut i: usize = 0;
    assert(names.subrange(0, 0).to_set() =~= Set::empty());
    assert(ledger@ =~= orig.remove_keys(names.subrange(0, 0).to_set()));
    while i < kinds.len()
        invariant
            i <= kinds.len(),
            names == crate::text::string_views(kinds@),
            cleared_rows(orig, names) <= u64::MAX,
            ledger@ == orig.remove_keys(names.subrange(0, i as int).to_set()),
            cleared == cleared_rows(orig, names.subrange(0, i as int)),
        decreases kinds.len() - i,
    {
        let ghost pre = names.subrange(0, i as int);
        let ghost next = names.subrange(0, i + 1);
        proof {
            assert(next.drop_last() =~= pre);
            assert(next.last() == kinds@[i as int]@);
            lemma_cleared_prefix(orig, names, i + 1);
            assert(pre.to_set().contains(kinds@[i as int]@) <==> pre.contains(kinds@[i as int]@));
        }
        let gone = ledger.remove(kinds[i].as_str());
        match gone {
            Some(rows) => {
                cleared = cleared + rows.len() as u64;
            },
            None => {},
        }
        proof {
            assert(next.to_set() =~= pre.to_set().insert(kinds@[i as int]@));
            assert(ledger@ =~= orig.remove_keys(next.to_set()));
        }
        i = i + 1;
    }
    assert(names.subrange(0, kinds.len() as int) =~= names);
    cleared
}


/// Folding a pass over the ledger never forgets a remembered failure: every
/// kind it held is still there, still holding a row for every asset it had.
pub proof fn merge_never_forgets_a_failure(
    prev: Map<Seq<char>, Seq<LedgerRow>>,
    cur: Map<Seq<char>, Seq<LedgerRow>>,
    out: Map<Seq<char>, Seq<LedgerRow>>,
    kind: Seq<char>,
    asset: Seq<char>,
)
    requires
        merged_ledgers(out, prev, cur),
        prev.contains_key(kind),
        row_assets(prev[kind]).contains(asset),
    ensures
        out.contains_key(kind),
        row_assets(out[kind]).contains(asset),
{
    assert(out.dom().contains(kind));
    if cur.contains_key(kind) {
        let both = rows_or_empty(prev, kind) + cur[kind];
        let w = choose|w: int| 0 <= w < prev[kind].len() && #[trigger] prev[kind][w].asset@ == asset;
        assert(both[w] == prev[kind][w]);
        assert(row_assets(both).contains(asset));
        assert(key_set(asset_keys(out[kind])).contains(asset));
        let v = choose|v: int| 0 <= v < asset_keys(out[kind]).len() && #[trigger] asset_keys(out[kind])[v]@ == asset;
        assert(out[kind][v].asset@ == asset);
    }
}

/// A merged kind never holds two rows for one asset.
pub proof fn merged_kind_has_one_row_per_asset(
    prev: Map<Seq<char>, Seq<LedgerRow>>,
    cur: Map<Seq<char>, Seq<LedgerRow>>,
    out: Map<Seq<char>, Seq<LedgerRow>>,
    kind: Seq<char>,
    i: int,
    j: int,
)
    requires
        merged_ledgers(out, prev, cur),
        cur.contains_key(kind),
        0 <= i < out[kind].len(),
        0 <= j < out[kind].len(),
        i != j,
    ensures
        out[kind][i].asset@ != out[kind][j].asset@,
{
    lemma_sorted_distinct(asset_keys(out[kind]), i, j);
}

/// The failures a pass reports under `kind`.
pub open spec fn kind_source(o: IndexRunOutcome, kind: Seq<char>) -> Seq<ItemFailure> {
    if kind == "thumbs"@ {
        o.thumbs.failed@
    } else if kind == "embeddings"@ {
        o.embed.failed@
    } else if kind == "keyframes"@ {
        o.keyframes.failed@
    } else if kind == "keyframe-images"@ {
        o.keyframe_images.failed@
    } else if kind == "transcripts"@ {
        o.transcribe.failed@ + o.transcript_embed.failed@
    } else if kind == "ocr"@ {
        o.ocr.failed@
    } else if kind == "pdf"@ {
        o.pdf.failed@
    } else {
        o.captions.failed@
    }
}

proof fn lemma_permanent_rows_are_permanent(failed: Seq<ItemFailure>, i: int)
    requires
        0 <= i < permanent_rows(failed).len(),
    ensures
        exists|j: int|
            0 <= j < failed.len() && !failed[j].transient && #[trigger] failure_row(failed[j])
                == permanent_rows(failed)[i],
    decreases failed.len(),
{
    let rest = permanent_rows(failed.drop_last());
    if i < rest.len() {
        lemma_permanent_rows_are_permanent(failed.drop_last(), i);
        let j = choose|j: int|
            0 <= j < failed.drop_last().len() && !failed.drop_last()[j].transient
                && #[trigger] failure_row(failed.drop_last()[j]) == rest[i];
        assert(failed[j] == failed.drop_last()[j]);
    } else {
        let j = failed.len() - 1;
        assert(failure_row(failed[j]) == permanent_rows(failed)[i]);
    }
}

/// Every row a pass files under a kind comes from a permanent failure that
/// pass reported for that kind, with its asset, path and error text: no
/// transient failure ever reaches the ledger.
pub proof fn no_transient_failure_reaches_the_ledger(
    pass: Map<Seq<char>, Seq<LedgerRow>>,
    o: IndexRunOutcome,
    kind: Seq<char>,
    i: int,
)
    requires
        pass_ledger(pass, o),
        pass.contains_key(kind),
        0 <= i < pass[kind].len(),
    ensures
        exists|j: int|
            0 <= j < kind_source(o, kind).len() && !kind_source(o, kind)[j].transient
                && #[trigger] failure_row(kind_source(o, kind)[j]) == pass[kind][i],
{
    reveal_strlit("thumbs");
    reveal_strlit("embeddings");
    reveal_strlit("keyframes");
    reveal_strlit("keyframe-images");
    reveal_strlit("transcripts");
    reveal_strlit("ocr");
    reveal_strlit("pdf");
    reveal_strlit("captions");
    assert(is_kind_name(kind));
    let src = kind_source(o, kind);
    assert(kind_entry(pass, kind, src));
    let perm = permanent_rows(src);
    let r = pass[kind][i];
    assert(last_for_asset(perm, r.asset@) == Some(r));
    lemma_last_for_asset_some(perm, r.asset@);
    let w = choose|w: int| 0 <= w < perm.len() && perm[w] == r;
    lemma_permanent_rows_are_permanent(src, w);
}


/// The kinds of derivation work the planner queues.
#[derive(Debug, Clone, Copy, PartialEq, Eq, Structural)]
pub enum WorkKind {
    Thumb,
    ImageEmbed,
    Keyframes,
    KeyframeImages,
    Transcribe,
    TranscriptEmbed,
    OcrImage,
    OcrKeyframes,
    PdfText,
    Caption,
}

/// The `--kinds` name each work kind answers to; `transcripts` spans both
/// transcription stages and `ocr` both OCR sources.
pub open spec fn work_kind_name(kind: WorkKind) -> Seq<char> {
    match kind {
        WorkKind::Thumb => "thumbs"@,
        WorkKind::ImageEmbed => "embeddings"@,
        WorkKind::Keyframes => "keyframes"@,
        WorkKind::KeyframeImages => "keyframe-images"@,
        WorkKind::Transcribe | WorkKind::TranscriptEmbed => "transcripts"@,
        WorkKind::OcrImage | WorkKind::OcrKeyframes => "ocr"@,
        WorkKind::PdfText => "pdf"@,
        WorkKind::Caption => "captions"@,
    }
}

/// The `--kinds` name `kind` answers to.
pub fn workkind_name(kind: WorkKind) -> (name: &'static str)
    ensures
        name@ == work_kind_name(kind),
{
    match kind {
        WorkKind::Thumb => "thumbs",
        WorkKind::ImageEmbed => "embeddings",
        WorkKind::Keyframes => "keyframes",
        WorkKind::KeyframeImages => "keyframe-images",
        WorkKind::Transcribe | WorkKind::TranscriptEmbed => "transcripts",
        WorkKind::OcrImage | WorkKind::OcrKeyframes => "ocr",
        WorkKind::PdfText => "pdf",
        WorkKind::Caption => "captions",
    }
}

/// One planned derivation: which asset, where its source file is, and what
/// to derive.
#[derive(Debug)]
pub struct WorkItem {
    pub asset: String,
    pub asset_hex: String,
    pub abs_path: String,
    pub kind: WorkKind,
}

/// One kind's queue counters.
#[derive(Debug, Clone, Copy, PartialEq, Eq, Structural)]
pub struct KindStatus {
    pub done: u64,
    pub pending: u64,
    pub offline: u64,
    pub unsupported: u64,
    pub needs_ffmpeg: u64,
    pub needs_model: u64,
    /// Held back by the failure ledger until an explicit retry.
    pub failed: u64,
}

impl Default for KindStatus {
    fn default() -> (s: Self)
        ensures
            s == (KindStatus {
                done: 0,
                pending: 0,
                offline: 0,
                unsupported: 0,
                needs_ffmpeg: 0,
                needs_model: 0,
                failed: 0,
            }),
    {
        KindStatus {
            done: 0,
            pending: 0,
            offline: 0,
            unsupported: 0,
            needs_ffmpeg: 0,
            needs_model: 0,
            failed: 0,
        }
    }
}

/// One pass's plan: the items to work, every kind's counters over the whole
/// catalog, and how many assets each Apple-only kind cannot queue in this
/// build.
#[derive(Debug)]
pub struct WorkPlan {
    pub items: Vec<WorkItem>,
    pub thumbs: KindStatus,
    pub embeddings: KindStatus,
    pub keyframes: KindStatus,
    pub keyframe_images: KindStatus,
    pub transcripts: KindStatus,
    pub ocr: KindStatus,
    pub pdf: KindStatus,
    pub captions: KindStatus,
    pub ocr_unavailable: u64,
    pub pdf_unavailable: u64,
}

/// The counters of the kind named `name` in `plan`.
pub open spec fn status_named(plan: WorkPlan, name: Seq<char>) -> KindStatus {
    if name == "thumbs"@ {
        plan.thumbs
    } else if name == "embeddings"@ {
        plan.embeddings
    } else if name == "keyframes"@ {
        plan.keyframes
    } else if name == "keyframe-images"@ {
        plan.keyframe_images
    } else if name == "transcripts"@ {
        plan.transcripts
    } else if name == "ocr"@ {
        plan.ocr
    } else if name == "pdf"@ {
        plan.pdf
    } else {
        plan.captions
    }
}

/// The ledger remembers `item` as a permanent failure of its kind.
pub open spec fn is_held(item: WorkItem, ledger: Map<Seq<char>, Seq<LedgerRow>>) -> bool {
    let name = work_kind_name(item.kind);
    ledger.contains_key(name) && row_assets(ledger[name]).contains(item.asset@)
}

/// How many of `items` of the kind named `name` the ledger holds back.
pub open spec fn held_count(items: Seq<WorkItem>, ledger: Map<Seq<char>, Seq<LedgerRow>>, name: Seq<char>) -> nat
    decreases items.len(),
{
    if items.len() == 0 {
        0
    } else {
        held_count(items.drop_last(), ledger, name) + if is_held(items.last(), ledger)
            && work_kind_name(items.last().kind) == name {
            1nat
        } else {
            0nat
        }
    }
}

/// `now` is `was` with `n` items moved from pending to failed (pending
/// never going below zero).
pub open spec fn held_back(now: KindStatus, was: KindStatus, n: nat) -> bool {
    &&& now.done == was.done
    &&& now.offline == was.offline
    &&& now.unsupported == was.unsupported
    &&& now.needs_ffmpeg == was.needs_ffmpeg
    &&& now.needs_model == was.needs_model
    &&& now.pending == if was.pending >= n {
        (was.pending - n) as nat
    } else {
        0nat
    }
    &&& now.failed == was.failed + n
}

/// The eight `--kinds` names, in the order the planner reports them.
pub open spec fn kind_names() -> Seq<Seq<char>> {
    seq![
        "thumbs"@,
        "embeddings"@,
        "keyframes"@,
        "keyframe-images"@,
        "transcripts"@,
        "ocr"@,
        "pdf"@,
        "captions"@,
    ]
}

/// Every kind of `now` is `was`'s with `items`' held-back counts moved.
pub open spec fn all_held_back(now: WorkPlan, was: WorkPlan, items: Seq<WorkItem>, ledger: Map<Seq<char>, Seq<LedgerRow>>) -> bool {
    forall|i: int|
        0 <= i < 8 ==> held_back(
            status_named(now, #[trigger] kind_names()[i]),
            status_named(was, kind_names()[i]),
            held_count(items, ledger, kind_names()[i]),
        )
}

fn is_held_exec(item: &WorkItem, ledger: &Ledger) -> (r: bool)
    ensures
        r == is_held(*item, ledger@),
{
    match ledger.get(workkind_name(item.kind)) {
        None => false,
        Some(rows) => {
            let mut i: usize = 0;
            while i < rows.len()
                invariant
                    i <= rows.len(),
                    ledger@.contains_key(work_kind_name(item.kind)),
                    rows@ == ledger@[work_kind_name(item.kind)],
                    forall|j: int| 0 <= j < i ==> (#[trigger] rows@[j]).asset@ != item.asset@,
                decreases rows.len() - i,
            {
                if str_eq(rows[i].asset.as_str(), item.asset.as_str()) {
                    assert(rows@[i as int].asset@ == item.asset@);
                    return true;
                }
                i = i + 1;
            }
            false
        },
    }
}

fn hold_one(plan: &mut WorkPlan, kind: WorkKind)
    requires
        status_named(*old(plan), work_kind_name(kind)).failed < u64::MAX,
    ensures
        forall|i: int|
            0 <= i < 8 ==> held_back(
                status_named(*final(plan), #[trigger] kind_names()[i]),
                status_named(*old(plan), kind_names()[i]),
                if kind_names()[i] == work_kind_name(kind) {
                    1nat
                } else {
                    0nat
                },
            ),
        final(plan).items@ == old(plan).items@,
        final(plan).ocr_unavailable == old(plan).ocr_unavailable,
        final(plan).pdf_unavailable == old(plan).pdf_unavailable,
{
    proof {
        lemma_kind_names_distinct();
        lemma_kind_name_lengths();
    }
    let status: &mut KindStatus = match kind {
        WorkKind::Thumb => &mut plan.thumbs,
        WorkKind::ImageEmbed => &mut plan.embeddings,
        WorkKind::Keyframes => &mut plan.keyframes,
        WorkKind::KeyframeImages => &mut plan.keyframe_images,
        WorkKind::Transcribe | WorkKind::TranscriptEmbed => &mut plan.transcripts,
        WorkKind::OcrImage | WorkKind::OcrKeyframes => &mut plan.ocr,
        WorkKind::PdfText => &mut plan.pdf,
        WorkKind::Caption => &mut plan.captions,
    };
    status.pending = if status.pending > 0 {
        status.pending - 1
    } else {
        0
    };
    status.failed = status.failed + 1;
}

/// The lengths of the `--kinds` names, which tell them apart.
proof fn lemma_kind_name_lengths()
    ensures
        "thumbs"@.len() == 6,
        "embeddings"@.len() == 10,
        "keyframes"@.len() == 9,
        "keyframe-images"@.len() == 15,
        "transcripts"@.len() == 11,
        "ocr"@.len() == 3,
        "pdf"@.len() == 3,
        "captions"@.len() == 8,
        "ocr"@[0] != "pdf"@[0],
{
    reveal_strlit("thumbs");
    reveal_strlit("embeddings");
    reveal_strlit("keyframes");
    reveal_strlit("keyframe-images");
    reveal_strlit("transcripts");
    reveal_strlit("ocr");
    reveal_strlit("pdf");
    reveal_strlit("captions");
}

proof fn lemma_kind_names_distinct()
    ensures
        forall|i: int, j: int|
            0 <= i < 8 && 0 <= j < 8 && i != j ==> #[trigger] kind_names()[i] != #[trigger] kind_names()[j],
        forall|k: WorkKind| #[trigger] kind_names().contains(work_kind_name(k)),
{
    reveal_strlit("thumbs");
    reveal_strlit("embeddings");
    reveal_strlit("keyframes");
    reveal_strlit("keyframe-images");
    reveal_strlit("transcripts");
    reveal_strlit("ocr");
    reveal_strlit("pdf");
    reveal_strlit("captions");
    assert("thumbs"@.len() == 6);
    assert("embeddings"@.len() == 10);
    assert("keyframes"@.len() == 9);
    assert("keyframe-images"@.len() == 15);
    assert("transcripts"@.len() == 11);
    assert("ocr"@.len() == 3);
    assert("pdf"@.len() == 3);
    assert("captions"@.len() == 8);
    assert("ocr"@[0] != "pdf"@[0]);
    assert forall|k: WorkKind| #[trigger] kind_names().contains(work_kind_name(k)) by {
        match k {
            WorkKind::Thumb => assert(kind_names()[0] == work_kind_name(k)),
            WorkKind::ImageEmbed => assert(kind_names()[1] == work_kind_name(k)),
            WorkKind::Keyframes => assert(kind_names()[2] == work_kind_name(k)),
            WorkKind::KeyframeImages => assert(kind_names()[3] == work_kind_name(k)),
            WorkKind::Transcribe | WorkKind::TranscriptEmbed => assert(kind_names()[4] == work_kind_name(k)),
            WorkKind::OcrImage | WorkKind::OcrKeyframes => assert(kind_names()[5] == work_kind_name(k)),
            WorkKind::PdfText => assert(kind_names()[6] == work_kind_name(k)),
            WorkKind::Caption => assert(kind_names()[7] == work_kind_name(k)),
        }
    }
}


proof fn lemma_held_prefix(items: Seq<WorkItem>, ledger: Map<Seq<char>, Seq<LedgerRow>>, name: Seq<char>, k: int)
    requires
        0 <= k <= items.len(),
    ensures
        held_count(items.subrange(0, k), ledger, name) <= held_count(items, ledger, name),
        k < items.len() ==> held_count(items.subrange(0, k + 1), ledger, name) == held_count(
            items.subrange(0, k),
            ledger,
            name,
        ) + if is_held(items[k], ledger) && work_kind_name(items[k].kind) == name {
            1nat
        } else {
            0nat
        },
    decreases items.len(),
{
    if k < items.len() {
        assert(items.subrange(0, k + 1).drop_last() =~= items.subrange(0, k));
        lemma_held_prefix(items.drop_last(), ledger, name, k);
        assert(items.drop_last().subrange(0, k) =~= items.subrange(0, k));
        if k + 1 < items.len() {
            lemma_held_prefix(items.drop_last(), ledger, name, k + 1);
            assert(items.drop_last().subrange(0, k + 1) =~= items.subrange(0, k + 1));
        } else {
            assert(items.subrange(0, k + 1) =~= items);
        }
    } else {
        assert(items.subrange(0, k) =~= items);
    }
}

/// Holds back every planned item the ledger remembers as a permanent
/// failure of its kind: the item leaves `items`, and its kind's pending
/// count moves to failed (pending never going below zero), so `index
/// status` says "held back" rather than a silent zero.
#[verifier::spinoff_prover]
#[verifier::rlimit(40)]
pub fn apply_ledger(plan: WorkPlan, ledger: &Ledger) -> (out: WorkPlan)
    requires
        forall|i: int|
            0 <= i < 8 ==> status_named(plan, #[trigger] kind_names()[i]).failed + held_count(
                plan.items@,
                ledger@,
                kind_names()[i],
            ) <= u64::MAX,
    ensures
        out.items@ == plan.items@.filter(|it: WorkItem| !is_held(it, ledger@)),
        all_held_back(out, plan, plan.items@, ledger@),
        out.ocr_unavailable == plan.ocr_unavailable,
        out.pdf_unavailable == plan.pdf_unavailable,
{
    let ghost orig = plan;
    let ghost pred = |it: WorkItem| !is_held(it, ledger@);
    let mut plan = plan;
    let mut rest: Vec<WorkItem> = Vec::new();
    std::mem::swap(&mut rest, &mut plan.items);
    let mut kept: Vec<WorkItem> = Vec::new();
    let mut done: usize = 0;
    proof {
        reveal(Seq::filter);
        assert(kept@ =~= orig.items@.subrange(0, 0).filter(pred));
        assert(rest@ =~= orig.items@.subrange(0, orig.items@.len() as int));
        lemma_kind_names_distinct();
        lemma_kind_name_lengths();
        assert forall|i: int| 0 <= i < 8 implies held_back(
            status_named(plan, #[trigger] kind_names()[i]),
            status_named(orig, kind_names()[i]),
            held_count(orig.items@.subrange(0, 0), ledger@, kind_names()[i]),
        ) by {
            assert(orig.items@.subrange(0, 0).len() == 0);
        }
    }
    assert(orig.items.len() == rest.len());
    while rest.len() > 0
        invariant
            done + rest.len() == orig.items.len(),
            orig.items.len() <= usize::MAX,
            rest@ == orig.items@.subrange(done as int, orig.items.len() as int),
            kept@ == orig.items@.subrange(0, done as int).filter(pred),
            pred == (|it: WorkItem| !is_held(it, ledger@)),
            all_held_back(plan, orig, orig.items@.subrange(0, done as int), ledger@),
            plan.ocr_unavailable == orig.ocr_unavailable,
            plan.pdf_unavailable == orig.pdf_unavailable,
            forall|i: int|
                0 <= i < 8 ==> status_named(orig, #[trigger] kind_names()[i]).failed + held_count(
                    orig.items@,
                    ledger@,
                    kind_names()[i],
                ) <= u64::MAX,
        decreases rest.len(),
    {
        let item = rest.remove(0);
        let ghost pre = orig.items@.subrange(0, done as int);
        let ghost next = orig.items@.subrange(0, done + 1);
        proof {
            reveal(Seq::filter);
            assert(item == orig.items@[done as int]);
            assert(next.drop_last() =~= pre);
            assert(next.last() == item);
            lemma_kind_names_distinct();
            lemma_kind_name_lengths();
            assert forall|i: int| 0 <= i < 8 implies held_count(next, ledger@, #[trigger] kind_names()[i])
                == held_count(pre, ledger@, kind_names()[i]) + if is_held(item, ledger@)
                && work_kind_name(item.kind) == kind_names()[i] {
                1nat
            } else {
                0nat
            } && held_count(next, ledger@, kind_names()[i]) <= held_count(
                orig.items@,
                ledger@,
                kind_names()[i],
            ) by {
                lemma_held_prefix(orig.items@, ledger@, kind_names()[i], done as int);
                lemma_held_prefix(orig.items@, ledger@, kind_names()[i], done + 1);
            }
        }
        let ghost before = plan;
        if is_held_exec(&item, ledger) {
            proof {
                let n = work_kind_name(item.kind);
                assert(kind_names().contains(n));
                let w = choose|w: int| 0 <= w < kind_names().len() && kind_names()[w] == n;
                assert(status_named(plan, kind_names()[w]).failed < u64::MAX);
            }
            hold_one(&mut plan, item.kind);
        } else {
            kept.push(item);
        }
        done = done + 1;
        assert(rest@ =~= orig.items@.subrange(done as int, orig.items.len() as int));
    }
    proof {
        assert(orig.items@.subrange(0, done as int) =~= orig.items@);
    }
    plan.items = kept;
    plan
}


/// Holding items back never loses one from the queue's count: for every
/// kind whose pending count covered its held items, pending plus failed is
/// what it was before.
pub proof fn holding_back_conserves_the_queue(
    now: WorkPlan,
    was: WorkPlan,
    items: Seq<WorkItem>,
    ledger: Map<Seq<char>, Seq<LedgerRow>>,
    i: int,
)
    requires
        all_held_back(now, was, items, ledger),
        0 <= i < 8,
        status_named(was, kind_names()[i]).pending >= held_count(items, ledger, kind_names()[i]),
    ensures
        status_named(now, kind_names()[i]).pending + status_named(now, kind_names()[i]).failed
            == status_named(was, kind_names()[i]).pending + status_named(was, kind_names()[i]).failed,
{
    assert(held_back(
        status_named(now, kind_names()[i]),
        status_named(was, kind_names()[i]),
        held_count(items, ledger, kind_names()[i]),
    ));
}

proof fn lemma_nothing_held(items: Seq<WorkItem>, name: Seq<char>)
    ensures
        held_count(items, Map::<Seq<char>, Seq<LedgerRow>>::empty(), name) == 0,
        items.filter(|it: WorkItem| !is_held(it, Map::<Seq<char>, Seq<LedgerRow>>::empty()))
            == items,
    decreases items.len(),
{
    reveal(Seq::filter);
    if items.len() > 0 {
        lemma_nothing_held(items.drop_last(), name);
        assert(items.drop_last().push(items.last()) =~= items);
    }
}

/// An empty ledger holds nothing back: every item stays queued and every
/// kind's counters are unchanged.
pub proof fn empty_ledger_holds_nothing_back(now: WorkPlan, was: WorkPlan, i: int)
    requires
        now.items@ == was.items@.filter(
            |it: WorkItem| !is_held(it, Map::<Seq<char>, Seq<LedgerRow>>::empty()),
        ),
        all_held_back(now, was, was.items@, Map::<Seq<char>, Seq<LedgerRow>>::empty()),
        0 <= i < 8,
    ensures
        now.items@ == was.items@,
        status_named(now, kind_names()[i]) == status_named(was, kind_names()[i]),
{
    lemma_nothing_held(was.items@, kind_names()[i]);
    assert(held_back(
        status_named(now, kind_names()[i]),
        status_named(was, kind_names()[i]),
        held_count(was.items@, Map::<Seq<char>, Seq<LedgerRow>>::empty(), kind_names()[i]),
    ));
}


pub open spec fn platform_notice_text(capability: Seq<char>, framework: Seq<char>, count: nat) -> Seq<char> {
    capability + " is unavailable in this build (requires "@ + framework
        + ", macOS only) — "@ + decimal(count) + " eligible asset(s) are not queued"@
}

/// Names the platform gap for one Apple-only kind: why `count` otherwise
/// eligible assets are not queued.
pub fn platform_unavailable_notice(capability: &str, framework: &str, count: u64) -> (s: String)
    ensures
        s@ == platform_notice_text(capability@, framework@, count as nat),
{
    let mut s = cat(capability, " is unavailable in this build (requires ");
    s.append(framework);
    s.append(", macOS only) — ");
    push_decimal(&mut s, count);
    s.append(" eligible asset(s) are not queued");
    s
}

/// One notice per Apple-only kind the plan could not queue anything for:
/// OCR, then PDF text extraction; none for a zero count.
pub open spec fn platform_notices(plan: WorkPlan) -> Seq<Seq<char>> {
    let ocr = if plan.ocr_unavailable > 0 {
        seq![platform_notice_text("OCR"@, "the Vision framework"@, plan.ocr_unavailable as nat)]
    } else {
        Seq::empty()
    };
    let pdf = if plan.pdf_unavailable > 0 {
        seq![platform_notice_text("PDF text extraction"@, "PDFKit"@, plan.pdf_unavailable as nat)]
    } else {
        Seq::empty()
    };
    ocr + pdf
}

/// Pushes the plan's platform-gap notices onto `notices`.
pub fn push_platform_unavailable_notices(plan: &WorkPlan, notices: &mut Notices)
    ensures
        string_views(final(notices)@) == string_views(old(notices)@) + platform_notices(*plan),
{
    let ghost start = notices@;
    if plan.ocr_unavailable > 0 {
        notices.push(platform_unavailable_notice("OCR", "the Vision framework", plan.ocr_unavailable));
    }
    let ghost mid = notices@;
    if plan.pdf_unavailable > 0 {
        notices.push(platform_unavailable_notice("PDF text extraction", "PDFKit", plan.pdf_unavailable));
    }
    assert(string_views(notices@) =~= string_views(start) + platform_notices(*plan));
}

/// One kind's queue counts as `index status` reports them.
#[derive(Debug, Clone, Copy, PartialEq, Eq, Structural)]
pub struct KindStatusRow {
    pub done: u64,
    pub pending: u64,
    pub offline: u64,
    pub unsupported: u64,
    pub needs_ffmpeg: u64,
    pub needs_model: u64,
    /// Held back by the failure ledger until an explicit retry.
    pub failed: u64,
}

/// `row` shows `status`'s counters, field for field.
pub open spec fn shows_status(row: KindStatusRow, status: KindStatus) -> bool {
    row.done == status.done && row.pending == status.pending && row.offline == status.offline
        && row.unsupported == status.unsupported && row.needs_ffmpeg == status.needs_ffmpeg
        && row.needs_model == status.needs_model && row.failed == status.failed
}

impl KindStatusRow {
    /// The row for one kind's counters, field for field.
    pub fn from_status(status: &KindStatus) -> (row: Self)
        ensures
            shows_status(row, *status),
    {
        KindStatusRow {
            done: status.done,
            pending: status.pending,
            offline: status.offline,
            unsupported: status.unsupported,
            needs_ffmpeg: status.needs_ffmpeg,
            needs_model: status.needs_model,
            failed: status.failed,
        }
    }
}

/// Everything `maj index status` renders: every kind's counts, the remedy
/// lines for kinds waiting on a missing model, the ledger as read, and the
/// diagnostics collected.
#[derive(Debug)]
pub struct IndexStatusOutcome {
    pub thumbs: KindStatusRow,
    pub embeddings: KindStatusRow,
    pub keyframes: KindStatusRow,
    pub keyframe_images: KindStatusRow,
    pub transcripts: KindStatusRow,
    pub ocr: KindStatusRow,
    pub pdf: KindStatusRow,
    pub captions: KindStatusRow,
    pub transcripts_remedy: Option<String>,
    pub captions_remedy: Option<String>,
    pub failed: Ledger,
    pub notices: Vec<String>,
}

pub open spec fn describer_remedy() -> Seq<char> {
    "run `maj describer set` to configure a backend"@
}

/// The `model fetch` command for the transcript pipeline, naming exactly
/// the missing models (`None` when both are installed).
pub open spec fn transcript_remedy_text(whisper: bool, text_model: bool, whisper_tag: Seq<char>, text_tag: Seq<char>) -> Option<Seq<char>> {
    if whisper && text_model {
        None
    } else {
        let fetches = if !whisper && !text_model {
            "--only "@ + whisper_tag + " --only "@ + text_tag
        } else if !whisper {
            "--only "@ + whisper_tag
        } else {
            "--only "@ + text_tag
        };
        Some("run `maj model fetch "@ + fetches + "`"@)
    }
}

/// The `model fetch` remedy for the transcript pipeline.
pub fn transcript_model_remedy(whisper: bool, text_model: bool, whisper_tag: &str, text_tag: &str) -> (r: Option<String>)
    ensures
        match (r, transcript_remedy_text(whisper, text_model, whisper_tag@, text_tag@)) {
            (Some(a), Some(b)) => a@ == b,
            (None, None) => true,
            _ => false,
        },
{
    if whisper && text_model {
        return None;
    }
    let mut s = "run `maj model fetch ".to_owned();
    if !whisper {
        s.append("--only ");
        s.append(whisper_tag);
    }
    if !text_model {
        if !whisper {
            s.append(" ");
        }
        s.append("--only ");
        s.append(text_tag);
    }
    s.append("`");
    proof {
        reveal_strlit(" --only ");
        reveal_strlit("--only ");
        reveal_strlit(" ");
    }
    assert(s@ =~= transcript_remedy_text(whisper, text_model, whisper_tag@, text_tag@)->0);
    Some(s)
}

/// `maj index status`: every kind's counts from the plan, the transcript
/// remedy when transcription waits on a missing model, the describer
/// remedy when captions do, the ledger as read, and the plan's platform
/// notices after whatever the sink already held.
pub fn index_status(
    plan: &WorkPlan,
    transcripts_remedy: Option<String>,
    ledger: Ledger,
    notices: &mut Notices,
) -> (o: IndexStatusOutcome)
    ensures
        shows_status(o.thumbs, plan.thumbs),
        shows_status(o.embeddings, plan.embeddings),
        shows_status(o.keyframes, plan.keyframes),
        shows_status(o.keyframe_images, plan.keyframe_images),
        shows_status(o.transcripts, plan.transcripts),
        shows_status(o.ocr, plan.ocr),
        shows_status(o.pdf, plan.pdf),
        shows_status(o.captions, plan.captions),
        o.transcripts_remedy == (if plan.transcripts.needs_model > 0 {
            transcripts_remedy
        } else {
            None
        }),
        o.captions_remedy matches Some(r) ==> r@ == describer_remedy(),
        o.captions_remedy is Some <==> plan.captions.needs_model > 0,
        o.failed@ == ledger@,
        string_views(o.notices@) == string_views(old(notices)@) + platform_notices(*plan),
        final(notices)@.len() == 0,
{
    let transcripts_remedy = if plan.transcripts.needs_model > 0 {
        transcripts_remedy
    } else {
        None
    };
    let captions_remedy = if plan.captions.needs_model > 0 {
        Some("run `maj describer set` to configure a backend".to_owned())
    } else {
        None
    };
    push_platform_unavailable_notices(plan, notices);
    IndexStatusOutcome {
        thumbs: KindStatusRow::from_status(&plan.thumbs),
        embeddings: KindStatusRow::from_status(&plan.embeddings),
        keyframes: KindStatusRow::from_status(&plan.keyframes),
        keyframe_images: KindStatusRow::from_status(&plan.keyframe_images),
        transcripts: KindStatusRow::from_status(&plan.transcripts),
        ocr: KindStatusRow::from_status(&plan.ocr),
        pdf: KindStatusRow::from_status(&plan.pdf),
        captions: KindStatusRow::from_status(&plan.captions),
        transcripts_remedy,
        captions_remedy,
        failed: ledger,
        notices: notices.drain(),
    }
}

pub open spec fn unknown_tag_message(tag: Seq<char>, known: Seq<Seq<char>>) -> Seq<char> {
    "unknown model tag "@ + tag + "; known: "@ + joined(known, ", "@)
}

/// Whether `known` names `tag`.
pub open spec fn names_tag(known: Seq<Seq<char>>, tag: Seq<char>) -> bool {
    exists|i: int| 0 <= i < known.len() && known[i] == tag
}

/// `maj model fetch`: which registered models (indices into `known`, in
/// registry order) to fetch — every one, or with `only` exactly the named
/// ones. Refuses the first tag of `only` the registry does not know,
/// before anything is fetched.
pub fn model_fetch(known: &Vec<String>, only: &Vec<String>) -> (r: Result<Vec<usize>, ServiceError>)
    ensures
        match r {
            Err(e) => exists|t: int|
                0 <= t < only.len() && !names_tag(string_views(known@), only@[t]@) && (forall|u: int|
                    0 <= u < t ==> names_tag(string_views(known@), #[trigger] only@[u]@)) && (e matches ServiceError::Other(m)
                    && m@ == unknown_tag_message(only@[t]@, string_views(known@))),
            Ok(v) => (forall|t: int| 0 <= t < only.len() ==> names_tag(string_views(known@), #[trigger] only@[t]@))
                && v@ == Seq::new(known.len() as nat, |i: int| i as usize).filter(
                    |i: usize| only.len() == 0 || names_tag(string_views(only@), known@[i as int]@),
                ),
        },
{
    let mut t: usize = 0;
    while t < only.len()
        invariant
            t <= only.len(),
            forall|u: int| 0 <= u < t ==> names_tag(string_views(known@), #[trigger] only@[u]@),
        decreases only.len() - t,
    {
        if !contains_string(known, only[t].as_str()) {
            let head = cat("unknown model tag ", only[t].as_str());
            let head = cat(head.as_str(), "; known: ");
            let list = join_strings(known, ", ");
            let msg = cat(head.as_str(), list.as_str());
            return Err(ServiceError::Other(msg));
        }
        t = t + 1;
    }
    let ghost pred = |i: usize| only.len() == 0 || names_tag(string_views(only@), known@[i as int]@);
    let mut v: Vec<usize> = Vec::new();
    let mut i: usize = 0;
    proof {
        reveal(Seq::filter);
        assert(v@ =~= Seq::new(0 as nat, |i: int| i as usize).filter(pred));
    }
    while i < known.len()
        invariant
            i <= known.len(),
            pred == (|i: usize| only.len() == 0 || names_tag(string_views(only@), known@[i as int]@)),
            forall|u: int| 0 <= u < only.len() ==> names_tag(string_views(known@), #[trigger] only@[u]@),
            v@ == Seq::new(i as nat, |i: int| i as usize).filter(pred),
        decreases known.len() - i,
    {
        proof {
            reveal(Seq::filter);
            assert(Seq::new((i + 1) as nat, |i: int| i as usize).drop_last() =~= Seq::new(i as nat, |i: int| i as usize));
        }
        if only.len() == 0 || contains_string(only, known[i].as_str()) {
            v.push(i);
        }
        i = i + 1;
    }
    Ok(v)
}

/// Whether some string of `v` reads `s`.
pub fn contains_string(v: &Vec<String>, s: &str) -> (r: bool)
    ensures
        r == names_tag(string_views(v@), s@),
{
    let mut i: usize = 0;
    while i < v.len()
        invariant
            i <= v.len(),
            forall|j: int| 0 <= j < i ==> (#[trigger] v@[j])@ != s@,
        decreases v.len() - i,
    {
        if str_eq(v[i].as_str(), s) {
            assert(string_views(v@)[i as int] == s@);
            return true;
        }
        i = i + 1;
    }
    proof {
        if names_tag(string_views(v@), s@) {
            let w = choose|w: int| 0 <= w < v@.len() && string_views(v@)[w] == s@;
            assert(v@[w]@ == s@);
        }
    }
    false
}


/// The rows of each of `keys`' kinds in `m`, one kind after another.
pub open spec fn flatten_rows(keys: Seq<String>, m: Map<Seq<char>, Seq<LedgerRow>>) -> Seq<LedgerRow>
    decreases keys.len(),
{
    if keys.len() == 0 {
        Seq::empty()
    } else {
        flatten_rows(keys.drop_last(), m) + m[keys.last()@]
    }
}


/// The failure ledger file as read: absent, present but not a ledger, or
/// a ledger.
#[derive(Debug)]
pub enum LedgerFile {
    Missing,
    Unparsable,
    Parsed(Ledger),
}

/// The note for a ledger file at `path` that is not a ledger.
pub open spec fn unparsable_ledger_text(path: Seq<char>) -> Seq<char> {
    "note: ignoring unparsable failure ledger at "@ + path
        + " — treating as empty (an older version wrote a different shape; it is rebuilt by the next run)"@
}

/// The ledger a catalog remembers, from its file at `path`: an absent file
/// is an empty ledger (nothing has failed yet); one that is not a ledger
/// is noted and treated as empty, to be rewritten by the next record.
pub fn read_ledger(file: LedgerFile, path: &str, notices: &mut Notices) -> (l: Ledger)
    ensures
        match file {
            LedgerFile::Parsed(p) => l@ == p@ && final(notices)@ == old(notices)@,
            LedgerFile::Missing => l@ == Map::<Seq<char>, Seq<LedgerRow>>::empty() && final(notices)@ == old(notices)@,
            LedgerFile::Unparsable => l@ == Map::<Seq<char>, Seq<LedgerRow>>::empty() && final(notices)@.len()
                == old(notices)@.len() + 1 && final(notices)@.drop_last() == old(notices)@ && final(notices)@.last()@ == unparsable_ledger_text(path@),
        },
{
    match file {
        LedgerFile::Parsed(p) => p,
        LedgerFile::Missing => Ledger::new(),
        LedgerFile::Unparsable => {
            let head = cat("note: ignoring unparsable failure ledger at ", path);
            let m = cat(
                head.as_str(),
                " — treating as empty (an older version wrote a different shape; it is rebuilt by the next run)",
            );
            let ghost before = notices@;
            notices.push(m);
            proof {
                assert(notices@.drop_last() =~= before);
            }
            Ledger::new()
        },
    }
}

/// The note for a describer config that could not be loaded.
pub open spec fn broken_config_text(reason: Seq<char>) -> Seq<char> {
    "note: ignoring broken describer config ("@ + reason + ") — captions degrade to unconfigured"@
}

/// The model tag captions are derived under, from the describer config as
/// loaded (`Ok(None)`: none configured; `Ok(Some(tag))`: its model tag): a
/// config that could not be loaded is noted, and captions then run as
/// unconfigured.
pub fn describer_model_tag(loaded: Result<Option<String>, String>, notices: &mut Notices) -> (t: Option<String>)
    ensures
        match loaded {
            Ok(tag) => t == tag && final(notices)@ == old(notices)@,
            Err(reason) => t is None && final(notices)@.len() == old(notices)@.len() + 1 && final(notices)@.drop_last() == old(notices)@ && final(notices)@.last()@ == broken_config_text(reason@),
        },
{
    match loaded {
        Ok(tag) => tag,
        Err(reason) => {
            let head = cat("note: ignoring broken describer config (", reason.as_str());
            let m = cat(head.as_str(), ") — captions degrade to unconfigured");
            let ghost before = notices@;
            notices.push(m);
            proof {
                assert(notices@.drop_last() =~= before);
            }
            None
        },
    }
}

/// A retry's clear of `kinds` from the remembered `ledger`: how many rows
/// went, and the ledger to store, which is there only when some row went —
/// a clear that removed nothing leaves the stored ledger (or its absence)
/// untouched.
pub fn cleared_ledger(ledger: Ledger, kinds: &Vec<String>) -> (r: (u64, Option<Ledger>))
    requires
        cleared_rows(ledger@, crate::text::string_views(kinds@)) <= u64::MAX,
    ensures
        r.0 == cleared_rows(ledger@, crate::text::string_views(kinds@)),
        r.1 is Some <==> r.0 > 0,
        r.1 matches Some(l) ==> l@ == ledger@.remove_keys(crate::text::string_views(kinds@).to_set()),
{
    let mut ledger = ledger;
    let cleared = clear_failures(&mut ledger, kinds);
    if cleared > 0 {
        (cleared, Some(ledger))
    } else {
        (cleared, None)
    }
}

} // verus!
