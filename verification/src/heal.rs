//! The rules of the blob-to-text-index diff run at the end of every index
//! pass: which asset a blob belongs to, whether its rows are already
//! indexed, and the `(locator, text)` rows each kind of decoded blob
//! yields. Locators are a millisecond timestamp for transcript chunks and
//! video keyframes, `-1` for a still, and the 1-based page for a PDF; a
//! blank text (nothing but whitespace) never becomes a row.
use vstd::prelude::*;
use vstd::multiset::Multiset;
use crate::index_run::ts_ms_i64;
use crate::text::{cat, chars_of, str_eq, trim, trimmed};

verus! {

broadcast use vstd::seq_lib::group_to_multiset_ensures, vstd::multiset::group_multiset_axioms;

/// A text with something other than whitespace in it.
pub open spec fn nonblank(s: Seq<char>) -> bool {
    trimmed(s).len() > 0
}

/// Rows as plain values.
pub open spec fn row_views(rows: Seq<(i64, String)>) -> Seq<(i64, Seq<char>)> {
    rows.map_values(|r: (i64, String)| (r.0, r.1@))
}

/// A timestamp as a signed millisecond count, saturating at `i64::MAX`.
pub open spec fn ts_locator(ts_ms: u64) -> i64 {
    if ts_ms <= i64::MAX as u64 {
        ts_ms as i64
    } else {
        i64::MAX
    }
}

/// The catalog id of the asset whose blobs live under the content hash
/// `hex`.
pub fn blob_asset_id(hex: &str) -> (id: String)
    ensures
        id@ == "xxh3:"@ + hex@,
{
    cat("xxh3:", hex)
}

/// Whether `asset` still needs its rows rebuilt: no row for this source
/// is indexed yet (`covered` lists the assets that have some).
pub fn needs_heal(covered: &Vec<String>, asset: &str) -> (r: bool)
    ensures
        r == !(exists|i: int| 0 <= i < covered.len() && #[trigger] covered@[i]@ == asset@),
{
    let mut i: usize = 0;
    while i < covered.len()
        invariant
            i <= covered.len(),
            forall|k: int| 0 <= k < i ==> covered@[k]@ != asset@,
        decreases covered.len() - i,
    {
        if str_eq(covered[i].as_str(), asset) {
            return false;
        }
        i = i + 1;
    }
    true
}

/// Whether `s` holds anything but whitespace.
pub fn is_nonblank(s: &str) -> (r: bool)
    ensures
        r == nonblank(s@),
{
    let t = trim(s);
    t.unicode_len() > 0
}

/// The row a still's caption or recognized text yields: one row at
/// locator `-1`, unless the text is blank.
pub fn still_row(text: String) -> (r: Option<(i64, String)>)
    ensures
        nonblank(text@) ==> (r matches Some(row) && row.0 == -1 && row.1@ == text@),
        !nonblank(text@) ==> r is None,
{
    if is_nonblank(text.as_str()) {
        Some((-1, text))
    } else {
        None
    }
}

/// The rows of timestamped texts: each non-blank text at its timestamp,
/// in the given order.
pub open spec fn timed_rows(described: Seq<(u64, String)>) -> Seq<(i64, Seq<char>)>
    decreases described.len(),
{
    if described.len() == 0 {
        Seq::empty()
    } else {
        let rest = timed_rows(described.drop_last());
        let (ts, text) = described.last();
        if nonblank(text@) {
            rest.push((ts_locator(ts), text@))
        } else {
            rest
        }
    }
}

/// The rows of a video's per-keyframe captions, or of a transcript's
/// chunks by their start: each non-blank text at its timestamp.
pub fn timed_text_rows(described: Vec<(u64, String)>) -> (rows: Vec<(i64, String)>)
    ensures
        row_views(rows@) == timed_rows(described@),
{
    let ghost all = described@;
    let total = described.len();
    assert(all.len() == total);
    let mut rows: Vec<(i64, String)> = Vec::new();
    let mut rest = described;
    let mut k: usize = 0;
    while rest.len() > 0
        invariant
            k + rest.len() == all.len(),
            all.len() <= usize::MAX,
            rest@ == all.subrange(k as int, all.len() as int),
            row_views(rows@) == timed_rows(all.subrange(0, k as int)),
        decreases rest.len(),
    {
        let (ts, text) = rest.remove(0);
        proof {
            assert(all.subrange(0, k + 1).drop_last() =~= all.subrange(0, k as int));
            assert(all.subrange(0, k + 1).last() == (ts, text));
        }
        if is_nonblank(text.as_str()) {
            let loc = ts_ms_i64(ts);
            rows.push((loc, text));
        }
        proof {
            assert(row_views(rows@) =~= timed_rows(all.subrange(0, k + 1)));
        }
        k = k + 1;
    }
    proof {
        assert(all.subrange(0, all.len() as int) =~= all);
    }
    rows
}

/// The locator of the page at 0-based `index`: its 1-based number,
/// saturating at `i64::MAX`.
pub open spec fn page_locator(index: int) -> i64 {
    if index + 1 <= i64::MAX {
        (index + 1) as i64
    } else {
        i64::MAX
    }
}

/// The rows of a PDF's page texts, from page `0` up to `n`.
pub open spec fn page_rows(pages: Seq<String>, n: nat) -> Seq<(i64, Seq<char>)>
    decreases n,
{
    if n == 0 {
        Seq::empty()
    } else {
        let rest = page_rows(pages, (n - 1) as nat);
        if nonblank(pages[n - 1]@) {
            rest.push((page_locator(n - 1), pages[n - 1]@))
        } else {
            rest
        }
    }
}

/// The rows of a PDF's page texts: each non-blank page at its 1-based
/// page number.
pub fn pdf_page_rows(pages: Vec<String>) -> (rows: Vec<(i64, String)>)
    ensures
        row_views(rows@) == page_rows(pages@, pages@.len()),
{
    let ghost all = pages@;
    let total = pages.len();
    assert(all.len() == total);
    let mut rows: Vec<(i64, String)> = Vec::new();
    let mut rest = pages;
    let mut k: usize = 0;
    while rest.len() > 0
        invariant
            k + rest.len() == all.len(),
            all.len() <= usize::MAX,
            rest@ == all.subrange(k as int, all.len() as int),
            row_views(rows@) == page_rows(all, k as nat),
        decreases rest.len(),
    {
        let page = rest.remove(0);
        assert(page == all[k as int]);
        if is_nonblank(page.as_str()) {
            let loc: i64 = if (k as u64) < 9223372036854775807u64 {
                (k + 1) as i64
            } else {
                i64::MAX
            };
            rows.push((loc, page));
        }
        proof {
            assert(row_views(rows@) =~= page_rows(all, (k + 1) as nat));
        }
        k = k + 1;
    }
    rows
}

/// `s` is one or more ASCII digits.
pub open spec fn all_digits(s: Seq<char>) -> bool {
    s.len() > 0 && forall|i: int| 0 <= i < s.len() ==> '0' <= #[trigger] s[i] && s[i] <= '9'
}

/// The number the decimal digits of `s` write.
pub open spec fn digits_value(s: Seq<char>) -> nat
    decreases s.len(),
{
    if s.len() == 0 {
        0
    } else {
        digits_value(s.drop_last()) * 10 + ((s.last() as nat) - ('0' as nat)) as nat
    }
}

/// `str::parse::<i64>`: an optional `+` or `-`, then decimal digits whose
/// value fits.
pub open spec fn parse_i64(s: Seq<char>) -> Option<i64> {
    if s.len() > 0 && s[0] == '-' {
        let d = s.drop_first();
        if all_digits(d) && digits_value(d) <= 9223372036854775808 {
            Some((0 - digits_value(d)) as i64)
        } else {
            None
        }
    } else {
        let d = if s.len() > 0 && s[0] == '+' { s.drop_first() } else { s };
        if all_digits(d) && digits_value(d) <= 9223372036854775807 {
            Some(digits_value(d) as i64)
        } else {
            None
        }
    }
}

proof fn lemma_digits_value_grows(s: Seq<char>, k: int)
    requires
        0 <= k <= s.len(),
        all_digits(s),
    ensures
        digits_value(s.subrange(0, k)) <= digits_value(s),
    decreases s.len() - k,
{
    if k < s.len() {
        lemma_digits_value_grows(s, k + 1);
        assert(s.subrange(0, k + 1).drop_last() =~= s.subrange(0, k));
    } else {
        assert(s.subrange(0, k) =~= s);
    }
}

/// Parses a signed decimal, as `str::parse::<i64>` does.
pub fn parse_decimal_i64(s: &str) -> (r: Option<i64>)
    ensures
        r == parse_i64(s@),
{
    let cs = chars_of(s);
    let n = cs.len();
    let negative = n > 0 && cs[0] == '-';
    let start: usize = if n > 0 && (cs[0] == '-' || cs[0] == '+') { 1 } else { 0 };
    let ghost d = s@.subrange(start as int, n as int);
    proof {
        if start == 1 {
            assert(d =~= s@.drop_first());
        } else {
            assert(d =~= s@);
        }
    }
    let bound: u64 = if negative { 9223372036854775808u64 } else { 9223372036854775807u64 };
    let ghost expected = if all_digits(d) && digits_value(d) <= bound {
        Some(if negative { (0 - digits_value(d)) as i64 } else { digits_value(d) as i64 })
    } else {
        None
    };
    assert(parse_i64(s@) == expected);
    if start >= n {
        return None;
    }
    let mut acc: u64 = 0;
    let mut i: usize = start;
    while i < n
        invariant
            cs@ == s@,
            n == cs.len(),
            start <= i <= n,
            d == s@.subrange(start as int, n as int),
            acc == digits_value(d.subrange(0, i - start)),
            acc <= bound,
            9223372036854775807u64 <= bound <= 9223372036854775808u64,
            parse_i64(s@) == expected,
            expected == (if all_digits(d) && digits_value(d) <= bound {
                Some(if negative { (0 - digits_value(d)) as i64 } else { digits_value(d) as i64 })
            } else {
                None
            }),
            forall|k: int| 0 <= k < i - start ==> '0' <= #[trigger] d[k] && d[k] <= '9',
        decreases n - i,
    {
        let c = cs[i];
        if !('0' <= c && c <= '9') {
            proof {
                assert(d[i - start] == c);
                assert(!all_digits(d));
            }
            return None;
        }
        let digit: u64 = (c as u32 - '0' as u32) as u64;
        proof {
            assert(d.subrange(0, i - start + 1).drop_last() =~= d.subrange(0, i - start));
            assert(d.subrange(0, i - start + 1).last() == c);
        }
        if acc > (bound - digit) / 10 {
            proof {
                if all_digits(d) {
                    lemma_digits_value_grows(d, i - start + 1);
                }
                assert(acc * 10 + digit > bound) by (nonlinear_arith)
                    requires
                        acc > (bound - digit) / 10,
                        digit <= 9,
                        bound >= 9,
                ;
            }
            return None;
        }
        assert(acc * 10 + digit <= bound) by (nonlinear_arith)
            requires
                acc <= (bound - digit) / 10,
                digit <= bound,
        ;
        acc = acc * 10 + digit;
        i = i + 1;
    }
    proof {
        assert(d.subrange(0, n - start) =~= d);
    }
    if negative {
        if acc == 9223372036854775808u64 {
            Some(-9223372036854775807i64 - 1)
        } else {
            Some(-(acc as i64))
        }
    } else {
        Some(acc as i64)
    }
}

/// The timestamp a keyframe OCR blob's file name `kf-<ts>.json.zst`
/// carries, or `None` for any other name.
pub open spec fn keyframe_blob_timestamp(name: Seq<char>) -> Option<i64> {
    if name.len() >= 12 && name.subrange(0, 3) == "kf-"@ && name.subrange(name.len() - 9, name.len() as int)
        == ".json.zst"@ {
        parse_i64(name.subrange(3, name.len() - 9))
    } else {
        None
    }
}

/// Reads the timestamp out of a keyframe OCR blob's file name.
pub fn keyframe_ocr_timestamp(name: &str) -> (r: Option<i64>)
    ensures
        r == keyframe_blob_timestamp(name@),
{
    let cs = chars_of(name);
    let n = cs.len();
    proof {
        reveal_strlit("kf-");
        reveal_strlit(".json.zst");
    }
    if n < 12 {
        return None;
    }
    if !(cs[0] == 'k' && cs[1] == 'f' && cs[2] == '-') {
        proof {
            assert(name@.subrange(0, 3)[0] == cs[0]);
            assert(name@.subrange(0, 3)[1] == cs[1]);
            assert(name@.subrange(0, 3)[2] == cs[2]);
        }
        return None;
    }
    let suffix = ['.', 'j', 's', 'o', 'n', '.', 'z', 's', 't'];
    let mut k: usize = 0;
    while k < 9
        invariant
            cs@ == name@,
            n == cs.len(),
            n >= 12,
            suffix@ == ".json.zst"@,
            forall|j: int| 0 <= j < k ==> cs@[n - 9 + j] == #[trigger] suffix@[j],
        decreases 9 - k,
    {
        if cs[n - 9 + k] != suffix[k] {
            proof {
                assert(name@.subrange(n - 9, n as int)[k as int] == cs@[n - 9 + k]);
            }
            return None;
        }
        k = k + 1;
    }
    proof {
        assert(name@.subrange(0, 3) =~= "kf-"@);
        assert(name@.subrange(n - 9, n as int) =~= ".json.zst"@);
    }
    let mut middle = String::new();
    let mut i: usize = 3;
    while i < n - 9
        invariant
            cs@ == name@,
            n == cs.len(),
            n >= 12,
            3 <= i <= n - 9,
            middle@ == name@.subrange(3, i as int),
        decreases n - 9 - i,
    {
        crate::text::push_char(&mut middle, cs[i]);
        i = i + 1;
        assert(middle@ =~= name@.subrange(3, i as int));
    }
    parse_decimal_i64(middle.as_str())
}

/// `rows` ordered by locator.
pub open spec fn sorted_by_locator(rows: Seq<(i64, String)>) -> bool {
    forall|i: int, j: int| 0 <= i < j < rows.len() ==> (#[trigger] rows[i]).0 <= (#[trigger] rows[j]).0
}

/// Orders rows by locator; rows with equal locators may come out in any
/// order among themselves.
pub fn sort_by_locator(rows: Vec<(i64, String)>) -> (out: Vec<(i64, String)>)
    ensures
        sorted_by_locator(out@),
        out@.to_multiset() == rows@.to_multiset(),
{
    let ghost all = rows@;
    let mut rest = rows;
    let mut out: Vec<(i64, String)> = Vec::new();
    while rest.len() > 0
        invariant
            sorted_by_locator(out@),
            out@.to_multiset().add(rest@.to_multiset()) == all.to_multiset(),
        decreases rest.len(),
    {
        let ghost before_rest = rest@;
        let x = rest.pop().unwrap();
        proof {
            assert(before_rest =~= rest@.push(x));
        }
        let mut k: usize = 0;
        while k < out.len() && out[k].0 <= x.0
            invariant
                k <= out.len(),
                sorted_by_locator(out@),
                forall|j: int| 0 <= j < k ==> (#[trigger] out@[j]).0 <= x.0,
            decreases out.len() - k,
        {
            k = k + 1;
        }
        let ghost before_out = out@;
        out.insert(k, x);
        proof {
            assert(out@ == before_out.insert(k as int, x));
            assert forall|i: int, j: int| 0 <= i < j < out@.len() implies (#[trigger] out@[i]).0 <= (
            #[trigger] out@[j]).0 by {
                if k < before_out.len() {
                    assert(x.0 < before_out[k as int].0);
                }
                if i < k && j == k {
                } else if i < k && j > k {
                    assert(out@[j] == before_out[j - 1]);
                } else if i == k && j > k {
                    assert(out@[j] == before_out[j - 1]);
                    if j - 1 > k {
                        assert(before_out[k as int].0 <= before_out[j - 1].0);
                    }
                } else if i > k {
                    assert(out@[i] == before_out[i - 1]);
                    assert(out@[j] == before_out[j - 1]);
                }
            }
            vstd::seq_lib::to_multiset_insert(before_out, k as int, x);
            assert(before_rest.to_multiset() == rest@.to_multiset().insert(x));
            assert(out@.to_multiset().add(rest@.to_multiset()) =~= before_out.to_multiset().add(
                before_rest.to_multiset(),
            ));
        }
    }
    proof {
        assert(rest@.to_multiset() =~= Multiset::empty());
        assert(out@.to_multiset().add(Multiset::empty()) =~= out@.to_multiset());
    }
    out
}

/// The rows of `found` whose text is not blank, in order.
pub open spec fn nonblank_rows(found: Seq<(i64, String)>) -> Seq<(i64, String)>
    decreases found.len(),
{
    if found.len() == 0 {
        Seq::empty()
    } else if nonblank(found.last().1@) {
        nonblank_rows(found.drop_last()).push(found.last())
    } else {
        nonblank_rows(found.drop_last())
    }
}

/// The rows of a video's keyframe OCR texts found beside its completion
/// marker: the non-blank ones, ordered by timestamp.
pub fn keyframe_ocr_rows(found: Vec<(i64, String)>) -> (rows: Vec<(i64, String)>)
    ensures
        sorted_by_locator(rows@),
        rows@.to_multiset() == nonblank_rows(found@).to_multiset(),
{
    let ghost all = found@;
    let total = found.len();
    assert(all.len() == total);
    let mut kept: Vec<(i64, String)> = Vec::new();
    let mut rest = found;
    let mut k: usize = 0;
    while rest.len() > 0
        invariant
            k + rest.len() == all.len(),
            all.len() <= usize::MAX,
            rest@ == all.subrange(k as int, all.len() as int),
            kept@ == nonblank_rows(all.subrange(0, k as int)),
        decreases rest.len(),
    {
        let r = rest.remove(0);
        proof {
            assert(all.subrange(0, k + 1).drop_last() =~= all.subrange(0, k as int));
            assert(all.subrange(0, k + 1).last() == r);
        }
        if is_nonblank(r.1.as_str()) {
            kept.push(r);
        }
        k = k + 1;
    }
    proof {
        assert(all.subrange(0, all.len() as int) =~= all);
    }
    sort_by_locator(kept)
}

} // verus!
