//! Text helpers the rest of the library builds messages and keys with:
//! decimal rendering, character access, ordering, and searching, each
//! stated over `Seq<char>`.
use vstd::prelude::*;
use vstd::string::*;

verus! {

/// The character for one decimal digit.
pub open spec fn digit_char(d: nat) -> char {
    if d == 0 {
        '0'
    } else if d == 1 {
        '1'
    } else if d == 2 {
        '2'
    } else if d == 3 {
        '3'
    } else if d == 4 {
        '4'
    } else if d == 5 {
        '5'
    } else if d == 6 {
        '6'
    } else if d == 7 {
        '7'
    } else if d == 8 {
        '8'
    } else {
        '9'
    }
}

/// The shortest decimal rendering of `n` (no sign, no leading zeros except
/// for `0` itself).
pub open spec fn decimal(n: nat) -> Seq<char>
    decreases n,
{
    if n < 10 {
        seq![digit_char(n)]
    } else {
        decimal(n / 10).push(digit_char(n % 10))
    }
}

/// `s` left-padded with `'0'` to at least `width` characters.
pub open spec fn zero_pad(s: Seq<char>, width: nat) -> Seq<char> {
    if s.len() >= width {
        s
    } else {
        Seq::new((width - s.len()) as nat, |i: int| '0') + s
    }
}

/// The ASCII lowercase hex digit for a nibble.
pub open spec fn hex_char(d: nat) -> char {
    if d < 10 {
        digit_char(d)
    } else if d == 10 {
        'a'
    } else if d == 11 {
        'b'
    } else if d == 12 {
        'c'
    } else if d == 13 {
        'd'
    } else if d == 14 {
        'e'
    } else {
        'f'
    }
}

/// The last `width` lowercase hex digits of `n`, most significant first.
pub open spec fn hex_fixed(n: nat, width: nat) -> Seq<char>
    decreases width,
{
    if width == 0 {
        Seq::empty()
    } else {
        hex_fixed(n / 16, (width - 1) as nat).push(hex_char(n % 16))
    }
}

/// Lexicographic order on character sequences — the order `String`'s own
/// `Ord` gives, since UTF-8 preserves code-point order.
pub open spec fn seq_lt(a: Seq<char>, b: Seq<char>) -> bool
    decreases a.len(),
{
    if b.len() == 0 {
        false
    } else if a.len() == 0 {
        true
    } else if a[0] != b[0] {
        a[0] < b[0]
    } else {
        seq_lt(a.drop_first(), b.drop_first())
    }
}

/// `a` is a prefix of `b`.
pub open spec fn is_prefix(a: Seq<char>, b: Seq<char>) -> bool {
    a.len() <= b.len() && b.subrange(0, a.len() as int) == a
}

/// `a` is a suffix of `b`.
pub open spec fn is_suffix(a: Seq<char>, b: Seq<char>) -> bool {
    a.len() <= b.len() && b.subrange(b.len() - a.len(), b.len() as int) == a
}

/// Whether `c` occurs in `s`.
pub open spec fn has_char(s: Seq<char>, c: char) -> bool {
    exists|i: int| 0 <= i < s.len() && s[i] == c
}

/// Appends one character — `String::push`.
#[verifier::external_body]
pub(crate) fn push_char(s: &mut String, c: char)
    ensures
        final(s)@ == old(s)@.push(c),
{
    s.push(c);
}

/// The characters of `s`, in order.
pub fn chars_of(s: &str) -> (out: Vec<char>)
    ensures
        out@ == s@,
{
    let n = s.unicode_len();
    let mut out: Vec<char> = Vec::new();
    let mut i: usize = 0;
    while i < n
        invariant
            n == s@.len(),
            i <= n,
            out@ == s@.subrange(0, i as int),
        decreases n - i,
    {
        let c = s.get_char(i);
        out.push(c);
        i = i + 1;
        assert(out@ =~= s@.subrange(0, i as int));
    }
    assert(out@ =~= s@);
    out
}

/// A string holding exactly `chars`.
pub fn string_of(chars: &Vec<char>) -> (out: String)
    ensures
        out@ == chars@,
{
    let mut out = String::new();
    let mut i: usize = 0;
    while i < chars.len()
        invariant
            i <= chars.len(),
            out@ == chars@.subrange(0, i as int),
        decreases chars.len() - i,
    {
        push_char(&mut out, chars[i]);
        i = i + 1;
        assert(out@ =~= chars@.subrange(0, i as int));
    }
    assert(out@ =~= chars@);
    out
}

/// An owned copy of `s`.
pub fn owned(s: &str) -> (out: String)
    ensures
        out@ == s@,
{
    s.to_owned()
}

/// `a` followed by `b`, as a new string.
pub fn cat(a: &str, b: &str) -> (out: String)
    ensures
        out@ == a@ + b@,
{
    let mut out = a.to_owned();
    out.append(b);
    out
}

/// Character-wise equality of two strings.
pub fn str_eq(a: &str, b: &str) -> (eq: bool)
    ensures
        eq == (a@ == b@),
{
    let x = chars_of(a);
    let y = chars_of(b);
    if x.len() != y.len() {
        return false;
    }
    let mut i: usize = 0;
    while i < x.len()
        invariant
            x@ == a@,
            y@ == b@,
            x.len() == y.len(),
            i <= x.len(),
            forall|j: int| 0 <= j < i ==> x@[j] == y@[j],
        decreases x.len() - i,
    {
        if x[i] != y[i] {
            return false;
        }
        i = i + 1;
    }
    assert(a@ =~= b@);
    true
}

/// The decimal digit character for `d < 10`.
pub fn digit(d: u64) -> (c: char)
    requires
        d < 10,
    ensures
        c == digit_char(d as nat),
{
    if d == 0 {
        '0'
    } else if d == 1 {
        '1'
    } else if d == 2 {
        '2'
    } else if d == 3 {
        '3'
    } else if d == 4 {
        '4'
    } else if d == 5 {
        '5'
    } else if d == 6 {
        '6'
    } else if d == 7 {
        '7'
    } else if d == 8 {
        '8'
    } else {
        '9'
    }
}

proof fn lemma_decimal_len_pos(n: nat)
    ensures
        decimal(n).len() >= 1,
    decreases n,
{
    if n >= 10 {
        lemma_decimal_len_pos(n / 10);
    }
}

/// Appends the decimal rendering of `n` to `out`.
pub fn push_decimal(out: &mut String, n: u64)
    ensures
        final(out)@ == old(out)@ + decimal(n as nat),
    decreases n,
{
    if n < 10 {
        push_char(out, digit(n));
        assert(decimal(n as nat) =~= seq![digit_char(n as nat)]);
    } else {
        push_decimal(out, n / 10);
        push_char(out, digit(n % 10));
        assert(final(out)@ =~= old(out)@ + decimal(n as nat)) by {
            assert(decimal(n as nat) == decimal((n / 10) as nat).push(digit_char((n % 10) as nat)));
        }
    }
}

/// The decimal rendering of `n`.
pub fn decimal_string(n: u64) -> (s: String)
    ensures
        s@ == decimal(n as nat),
{
    let mut s = String::new();
    push_decimal(&mut s, n);
    assert(s@ =~= decimal(n as nat));
    s
}

/// Appends `n` in decimal, left-padded with zeros to `width` characters.
pub fn push_padded(out: &mut String, n: u64, width: usize)
    ensures
        final(out)@ == old(out)@ + zero_pad(decimal(n as nat), width as nat),
{
    let digits = decimal_string(n);
    let len = digits.as_str().unicode_len();
    let ghost start = out@;
    if len < width {
        let mut k: usize = 0;
        while k < width - len
            invariant
                len < width,
                out@ == start + Seq::new(k as nat, |i: int| '0'),
                k <= width - len,
            decreases width - len - k,
        {
            push_char(out, '0');
            k = k + 1;
            assert(out@ =~= start + Seq::new(k as nat, |i: int| '0'));
        }
    }
    out.append(digits.as_str());
    assert(out@ =~= start + zero_pad(decimal(n as nat), width as nat));
}

/// Whether `a` sorts strictly before `b` (lexicographically by character).
pub fn str_lt(a: &str, b: &str) -> (lt: bool)
    ensures
        lt == seq_lt(a@, b@),
{
    let x = chars_of(a);
    let y = chars_of(b);
    let mut i: usize = 0;
    assert(a@.skip(0) =~= a@);
    assert(b@.skip(0) =~= b@);
    while i < x.len() && i < y.len()
        invariant
            x@ == a@,
            y@ == b@,
            i <= x.len(),
            i <= y.len(),
            forall|j: int| 0 <= j < i ==> x@[j] == y@[j],
            seq_lt(a@, b@) == seq_lt(a@.skip(i as int), b@.skip(i as int)),
        decreases x.len() - i,
    {
        if x[i] != y[i] {
            let lt = x[i] < y[i];
            assert(a@.skip(i as int)[0] == x@[i as int]);
            assert(b@.skip(i as int)[0] == y@[i as int]);
            return lt;
        }
        assert(a@.skip(i as int).drop_first() =~= a@.skip(i + 1));
        assert(b@.skip(i as int).drop_first() =~= b@.skip(i + 1));
        i = i + 1;
    }
    y.len() > i
}

/// Whether `a` is a prefix of `b`.
pub fn starts_with(b: &str, a: &str) -> (r: bool)
    ensures
        r == is_prefix(a@, b@),
{
    let x = chars_of(a);
    let y = chars_of(b);
    if x.len() > y.len() {
        return false;
    }
    let mut i: usize = 0;
    while i < x.len()
        invariant
            x@ == a@,
            y@ == b@,
            x.len() <= y.len(),
            i <= x.len(),
            forall|j: int| 0 <= j < i ==> x@[j] == y@[j],
        decreases x.len() - i,
    {
        if x[i] != y[i] {
            assert(b@.subrange(0, a@.len() as int)[i as int] != a@[i as int]);
            return false;
        }
        i = i + 1;
    }
    assert(b@.subrange(0, a@.len() as int) =~= a@);
    true
}

/// Whether `a` is a suffix of `b`.
pub fn ends_with(b: &str, a: &str) -> (r: bool)
    ensures
        r == is_suffix(a@, b@),
{
    let x = chars_of(a);
    let y = chars_of(b);
    if x.len() > y.len() {
        return false;
    }
    let off = y.len() - x.len();
    let mut i: usize = 0;
    while i < x.len()
        invariant
            x@ == a@,
            y@ == b@,
            x.len() <= y.len(),
            off == y.len() - x.len(),
            i <= x.len(),
            forall|j: int| 0 <= j < i ==> x@[j] == y@[off + j],
        decreases x.len() - i,
    {
        if x[i] != y[off + i] {
            assert(b@.subrange(off as int, b@.len() as int)[i as int] != a@[i as int]);
            return false;
        }
        i = i + 1;
    }
    assert(b@.subrange(off as int, b@.len() as int) =~= a@);
    true
}

/// Whether `c` occurs in `s`.
pub fn contains_char(s: &str, c: char) -> (r: bool)
    ensures
        r == has_char(s@, c),
{
    let x = chars_of(s);
    let mut i: usize = 0;
    while i < x.len()
        invariant
            x@ == s@,
            i <= x.len(),
            forall|j: int| 0 <= j < i ==> x@[j] != c,
        decreases x.len() - i,
    {
        if x[i] == c {
            return true;
        }
        i = i + 1;
    }
    false
}


/// `seq_lt` never relates a sequence to itself.
pub proof fn lemma_seq_lt_irreflexive(a: Seq<char>)
    ensures
        !seq_lt(a, a),
    decreases a.len(),
{
    if a.len() > 0 {
        lemma_seq_lt_irreflexive(a.drop_first());
    }
}

/// `seq_lt` is transitive.
pub proof fn lemma_seq_lt_transitive(a: Seq<char>, b: Seq<char>, c: Seq<char>)
    requires
        seq_lt(a, b),
        seq_lt(b, c),
    ensures
        seq_lt(a, c),
    decreases a.len(),
{
    if a.len() > 0 && a[0] == b[0] && b[0] == c[0] {
        lemma_seq_lt_transitive(a.drop_first(), b.drop_first(), c.drop_first());
    }
}

/// Two distinct sequences are ordered one way or the other.
pub proof fn lemma_seq_lt_total(a: Seq<char>, b: Seq<char>)
    requires
        a != b,
    ensures
        seq_lt(a, b) || seq_lt(b, a),
    decreases a.len(),
{
    if a.len() == 0 {
        if b.len() == 0 {
            assert(a =~= b);
        }
    } else if b.len() > 0 && a[0] == b[0] {
        if a.drop_first() =~= b.drop_first() {
            assert forall|i: int| 0 <= i < a.len() implies a[i] == b[i] by {
                if i > 0 {
                    assert(a[i] == a.drop_first()[i - 1]);
                    assert(b[i] == b.drop_first()[i - 1]);
                }
            }
            assert(a =~= b);
        }
        lemma_seq_lt_total(a.drop_first(), b.drop_first());
    }
}

/// `seq_lt` is asymmetric.
pub proof fn lemma_seq_lt_asymmetric(a: Seq<char>, b: Seq<char>)
    requires
        seq_lt(a, b),
    ensures
        !seq_lt(b, a),
{
    if seq_lt(b, a) {
        lemma_seq_lt_transitive(a, b, a);
        lemma_seq_lt_irreflexive(a);
    }
}

/// The strings of `keys` strictly increase: sorted, with no repeats.
pub open spec fn strictly_sorted(keys: Seq<String>) -> bool {
    forall|i: int, j: int| 0 <= i < j < keys.len() ==> seq_lt(#[trigger] keys[i]@, #[trigger] keys[j]@)
}

/// Whether some string of `keys` reads `k`.
pub open spec fn holds_key(keys: Seq<String>, k: Seq<char>) -> bool {
    exists|i: int| 0 <= i < keys.len() && #[trigger] keys[i]@ == k
}

/// The strings of `keys`, as a set.
pub open spec fn key_set(keys: Seq<String>) -> Set<Seq<char>> {
    Set::new(|m: Seq<char>| holds_key(keys, m))
}

/// Where `k` sits in the strictly sorted `keys`: its index when present,
/// else the index it would be inserted at to keep the order.
pub fn slot_of(keys: &Vec<String>, k: &str) -> (r: (usize, bool))
    requires
        strictly_sorted(keys@),
    ensures
        r.0 <= keys.len(),
        r.1 == holds_key(keys@, k@),
        r.1 ==> r.0 < keys.len() && keys@[r.0 as int]@ == k@,
        !r.1 ==> forall|i: int| 0 <= i < r.0 ==> seq_lt(#[trigger] keys@[i]@, k@),
        !r.1 ==> forall|i: int| r.0 <= i < keys.len() ==> seq_lt(k@, #[trigger] keys@[i]@),
{
    let mut i: usize = 0;
    while i < keys.len() && str_lt(keys[i].as_str(), k)
        invariant
            i <= keys.len(),
            strictly_sorted(keys@),
            forall|j: int| 0 <= j < i ==> seq_lt(#[trigger] keys@[j]@, k@),
        decreases keys.len() - i,
    {
        i = i + 1;
    }
    if i < keys.len() && str_eq(keys[i].as_str(), k) {
        return (i, true);
    }
    proof {
        if i < keys.len() {
            lemma_seq_lt_total(keys@[i as int]@, k@);
            assert forall|j: int| i <= j < keys.len() implies seq_lt(k@, #[trigger] keys@[j]@) by {
                if j > i {
                    lemma_seq_lt_transitive(k@, keys@[i as int]@, keys@[j]@);
                }
            }
        }
        assert forall|j: int| 0 <= j < keys.len() implies #[trigger] keys@[j]@ != k@ by {
            if j < i {
                lemma_seq_lt_irreflexive(k@);
            } else {
                lemma_seq_lt_irreflexive(k@);
            }
        }
    }
    (i, false)
}

/// Unicode `White_Space`, the set `char::is_whitespace` tests.
pub open spec fn is_ws(c: char) -> bool {
    ||| c == ' '
    ||| ('\t' <= c && c <= '\r')
    ||| c == '\u{85}'
    ||| c == '\u{A0}'
    ||| c == '\u{1680}'
    ||| ('\u{2000}' <= c && c <= '\u{200A}')
    ||| c == '\u{2028}'
    ||| c == '\u{2029}'
    ||| c == '\u{202F}'
    ||| c == '\u{205F}'
    ||| c == '\u{3000}'
}

/// Whether `c` is whitespace.
pub fn is_whitespace(c: char) -> (r: bool)
    ensures
        r == is_ws(c),
{
    c == ' ' || ('\t' <= c && c <= '\r') || c == '\u{85}' || c == '\u{A0}' || c == '\u{1680}' || (
    '\u{2000}' <= c && c <= '\u{200A}') || c == '\u{2028}' || c == '\u{2029}' || c == '\u{202F}'
        || c == '\u{205F}' || c == '\u{3000}'
}

/// The first index at or after `i` that holds no whitespace.
pub open spec fn skip_ws_from(s: Seq<char>, i: int) -> int
    decreases s.len() - i,
{
    if 0 <= i < s.len() && is_ws(s[i]) {
        skip_ws_from(s, i + 1)
    } else {
        i
    }
}

/// Walking back from `j` (not below `lo`), the end of the last character
/// that is not whitespace.
pub open spec fn back_ws_to(s: Seq<char>, j: int, lo: int) -> int
    decreases j - lo,
{
    if lo < j && is_ws(s[j - 1]) {
        back_ws_to(s, j - 1, lo)
    } else {
        j
    }
}

/// `s` without its leading and trailing whitespace (`str::trim`).
pub open spec fn trimmed(s: Seq<char>) -> Seq<char> {
    let a = skip_ws_from(s, 0);
    s.subrange(a, back_ws_to(s, s.len() as int, a))
}

proof fn lemma_skip_ws_bounds(s: Seq<char>, i: int)
    requires
        0 <= i <= s.len(),
    ensures
        i <= skip_ws_from(s, i) <= s.len(),
    decreases s.len() - i,
{
    if i < s.len() && is_ws(s[i]) {
        lemma_skip_ws_bounds(s, i + 1);
    }
}

proof fn lemma_back_ws_bounds(s: Seq<char>, j: int, lo: int)
    requires
        lo <= j,
    ensures
        lo <= back_ws_to(s, j, lo) <= j,
    decreases j - lo,
{
    if lo < j && is_ws(s[j - 1]) {
        lemma_back_ws_bounds(s, j - 1, lo);
    }
}

/// The characters `chars[lo..hi]` as a string.
pub fn string_of_range(chars: &Vec<char>, lo: usize, hi: usize) -> (out: String)
    requires
        lo <= hi <= chars.len(),
    ensures
        out@ == chars@.subrange(lo as int, hi as int),
{
    let mut out = String::new();
    let mut i: usize = lo;
    while i < hi
        invariant
            lo <= i <= hi,
            hi <= chars.len(),
            out@ == chars@.subrange(lo as int, i as int),
        decreases hi - i,
    {
        push_char(&mut out, chars[i]);
        i = i + 1;
        assert(out@ =~= chars@.subrange(lo as int, i as int));
    }
    out
}

/// `s` without leading and trailing whitespace.
pub fn trim(s: &str) -> (out: String)
    ensures
        out@ == trimmed(s@),
{
    let c = chars_of(s);
    let n = c.len();
    let mut i: usize = 0;
    while i < n && is_whitespace(c[i])
        invariant
            c@ == s@,
            n == c.len(),
            i <= n,
            skip_ws_from(s@, 0) == skip_ws_from(s@, i as int),
        decreases n - i,
    {
        i = i + 1;
    }
    let mut j: usize = n;
    while j > i && is_whitespace(c[j - 1])
        invariant
            c@ == s@,
            n == c.len(),
            i <= j <= n,
            skip_ws_from(s@, 0) == i,
            back_ws_to(s@, n as int, i as int) == back_ws_to(s@, j as int, i as int),
        decreases j - i,
    {
        j = j - 1;
    }
    string_of_range(&c, i, j)
}

/// `parts` joined with `sep` between neighbours (`[..].join(sep)`).
pub open spec fn joined(parts: Seq<Seq<char>>, sep: Seq<char>) -> Seq<char>
    decreases parts.len(),
{
    if parts.len() == 0 {
        Seq::empty()
    } else if parts.len() == 1 {
        parts[0]
    } else {
        joined(parts.drop_last(), sep) + sep + parts.last()
    }
}

/// The views of `v`, in order.
pub open spec fn string_views(v: Seq<String>) -> Seq<Seq<char>> {
    v.map_values(|s: String| s@)
}

/// `parts` joined with `sep` between neighbours.
pub fn join_strings(parts: &Vec<String>, sep: &str) -> (out: String)
    ensures
        out@ == joined(string_views(parts@), sep@),
{
    let mut out = String::new();
    let mut i: usize = 0;
    while i < parts.len()
        invariant
            i <= parts.len(),
            out@ == joined(string_views(parts@.subrange(0, i as int)), sep@),
        decreases parts.len() - i,
    {
        let ghost before = string_views(parts@.subrange(0, i as int));
        if i > 0 {
            out.append(sep);
        }
        out.append(parts[i].as_str());
        i = i + 1;
        proof {
            let now = string_views(parts@.subrange(0, i as int));
            assert(now.drop_last() =~= before);
            assert(now.last() == parts@[i - 1]@);
            if i == 1 {
                assert(now.len() == 1);
            }
        }
    }
    assert(parts@.subrange(0, parts.len() as int) =~= parts@);
    out
}


/// Adds `k` to the strictly sorted `keys` unless it is already there.
/// Returns where `k` now sits and whether it was inserted there.
pub fn insert_key(keys: &mut Vec<String>, k: &str) -> (r: (usize, bool))
    requires
        strictly_sorted(old(keys)@),
    ensures
        strictly_sorted(final(keys)@),
        r.0 < final(keys).len(),
        final(keys)@[r.0 as int]@ == k@,
        r.1 == !holds_key(old(keys)@, k@),
        !r.1 ==> final(keys)@ == old(keys)@,
        r.1 ==> r.0 <= old(keys).len() && final(keys).len() == old(keys).len() + 1,
        r.1 ==> final(keys)@ == old(keys)@.insert(r.0 as int, final(keys)@[r.0 as int]),
        key_set(final(keys)@) == key_set(old(keys)@).insert(k@),
{
    let (idx, found) = slot_of(keys, k);
    if found {
        assert(key_set(keys@) =~= key_set(keys@).insert(k@));
        return (idx, false);
    }
    let ghost before = keys@;
    keys.insert(idx, k.to_owned());
    proof {
        let after = keys@;
        assert forall|i: int, j: int| 0 <= i < j < after.len() implies seq_lt(
            #[trigger] after[i]@,
            #[trigger] after[j]@,
        ) by {
            if j < idx {
            } else if j == idx {
            } else if i < idx {
                lemma_seq_lt_transitive(after[i]@, k@, after[j]@);
            } else if i == idx {
            } else {
            }
        }
        assert forall|m: Seq<char>| holds_key(after, m) <==> (holds_key(before, m) || m == k@) by {
            if holds_key(before, m) {
                let w = choose|w: int| 0 <= w < before.len() && #[trigger] before[w]@ == m;
                if w < idx {
                    assert(after[w]@ == m);
                } else {
                    assert(after[w + 1]@ == m);
                }
            }
            if m == k@ {
                assert(after[idx as int]@ == m);
            }
            if holds_key(after, m) {
                let w = choose|w: int| 0 <= w < after.len() && #[trigger] after[w]@ == m;
                if w < idx {
                    assert(before[w]@ == m);
                } else if w > idx {
                    assert(before[w - 1]@ == m);
                }
            }
        }
        assert(key_set(after) =~= key_set(before).insert(k@));
    }
    (idx, true)
}


/// `dir` joined with the relative path `name`, as `Path::join` forms it on
/// Unix: `name` alone under an empty `dir`, otherwise with exactly one
/// `/` between them when `dir` does not already end in one.
pub open spec fn path_join(dir: Seq<char>, name: Seq<char>) -> Seq<char> {
    if dir.len() == 0 {
        name
    } else if dir.last() == '/' {
        dir + name
    } else {
        dir + "/"@ + name
    }
}

/// `dir` joined with the relative path `name`.
pub fn join_path(dir: &str, name: &str) -> (out: String)
    ensures
        out@ == path_join(dir@, name@),
{
    let n = dir.unicode_len();
    if n == 0 {
        return name.to_owned();
    }
    let mut out = dir.to_owned();
    if dir.get_char(n - 1) != '/' {
        push_char(&mut out, '/');
    }
    out.append(name);
    proof {
        reveal_strlit("/");
        if dir@.last() != '/' {
            assert(out@ =~= dir@ + "/"@ + name@);
        }
    }
    out
}


/// Distinct positions of a strictly sorted list hold distinct strings.
pub proof fn lemma_sorted_distinct(keys: Seq<String>, a: int, b: int)
    requires
        strictly_sorted(keys),
        0 <= a < keys.len(),
        0 <= b < keys.len(),
        a != b,
    ensures
        keys[a]@ != keys[b]@,
{
    if a < b {
        assert(seq_lt(keys[a]@, keys[b]@));
        lemma_seq_lt_irreflexive(keys[a]@);
    } else {
        assert(seq_lt(keys[b]@, keys[a]@));
        lemma_seq_lt_irreflexive(keys[a]@);
    }
}

/// A strictly sorted list holds as many strings as its set does.
pub proof fn lemma_key_set_len(keys: Seq<String>)
    requires
        strictly_sorted(keys),
    ensures
        key_set(keys).finite(),
        key_set(keys).len() == keys.len(),
    decreases keys.len(),
{
    if keys.len() == 0 {
        assert(key_set(keys) =~= Set::empty());
    } else {
        let rest = keys.drop_last();
        assert(strictly_sorted(rest));
        lemma_key_set_len(rest);
        assert(key_set(keys) =~= key_set(rest).insert(keys.last()@)) by {
            assert forall|m: Seq<char>| key_set(keys).contains(m) <==> key_set(rest).insert(
                keys.last()@,
            ).contains(m) by {
                if holds_key(keys, m) {
                    let w = choose|w: int| 0 <= w < keys.len() && #[trigger] keys[w]@ == m;
                    if w < keys.len() - 1 {
                        assert(rest[w]@ == m);
                    }
                }
                if holds_key(rest, m) {
                    let w = choose|w: int| 0 <= w < rest.len() && #[trigger] rest[w]@ == m;
                    assert(keys[w]@ == m);
                }
                if m == keys.last()@ {
                    assert(keys[keys.len() - 1]@ == m);
                }
            }
        }
        if key_set(rest).contains(keys.last()@) {
            let w = choose|w: int| 0 <= w < rest.len() && #[trigger] rest[w]@ == keys.last()@;
            lemma_sorted_distinct(keys, w, keys.len() - 1);
        }
    }
}


/// Sixteen to the `k`.
pub open spec fn pow16(k: nat) -> nat
    decreases k,
{
    if k == 0 {
        1
    } else {
        16 * pow16((k - 1) as nat)
    }
}

/// `hex_fixed(n, w)` has `w` digits.
pub proof fn lemma_hex_fixed_len(n: nat, w: nat)
    ensures
        hex_fixed(n, w).len() == w,
    decreases w,
{
    if w > 0 {
        lemma_hex_fixed_len(n / 16, (w - 1) as nat);
    }
}

/// Every power of sixteen is positive.
pub proof fn lemma_pow16_positive(k: nat)
    ensures
        pow16(k) > 0,
    decreases k,
{
    if k > 0 {
        lemma_pow16_positive((k - 1) as nat);
    }
}

/// The digit `i` places from the right of `hex_fixed(n, w)` is that digit
/// of `n`.
pub proof fn lemma_hex_fixed_digit(n: nat, w: nat, i: nat)
    requires
        i < w,
    ensures
        hex_fixed(n, w).len() == w,
        hex_fixed(n, w)[w - 1 - i] == hex_char((n / pow16(i)) % 16),
    decreases w,
{
    lemma_hex_fixed_len(n, w);
    lemma_hex_fixed_len(n / 16, (w - 1) as nat);
    let prefix = hex_fixed(n / 16, (w - 1) as nat);
    assert(hex_fixed(n, w) == prefix.push(hex_char(n % 16)));
    if i > 0 {
        lemma_hex_fixed_digit(n / 16, (w - 1) as nat, (i - 1) as nat);
        lemma_pow16_positive((i - 1) as nat);
        vstd::arithmetic::div_mod::lemma_div_denominator(n as int, 16, pow16((i - 1) as nat) as int);
        assert(pow16(i) == 16 * pow16((i - 1) as nat));
        assert(hex_fixed(n, w)[w - 1 - i] == prefix[(w - 1) - 1 - (i - 1)]);
    } else {
        assert(pow16(0) == 1);
        assert(n / 1 == n);
    }
}

} // verus!
