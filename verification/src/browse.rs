//! Browse: every volume's folder tree, derived from the catalog's recorded
//! instance paths, and the per-folder listing that scopes, filters,
//! collapses, sorts and paginates the assets under one folder.
//!
//! A folder tree comes from the `/`-separated relative paths of a volume's
//! instances. A path's last segment is its file name; each directory
//! prefix before it is a folder, the volume root `""` included, and each
//! folder counts the distinct assets anywhere in its subtree.
use vstd::prelude::*;
use crate::text::{
    cat, chars_of, decimal, holds_key, insert_key, is_prefix, join_strings, joined, key_set, lemma_key_set_len,
    lemma_seq_lt_asymmetric, lemma_seq_lt_irreflexive, lemma_seq_lt_total, lemma_seq_lt_transitive,
    lemma_sorted_distinct, push_char, push_decimal, seq_lt, slot_of, starts_with, str_eq, str_lt, strictly_sorted,
    string_of_range, string_views,
};

verus! {

/// One folder in a volume's catalog tree.
#[derive(Debug, PartialEq, Eq)]
pub struct BrowseFolder {
    /// `/`-separated path relative to the volume root; `""` is the root.
    pub path: String,
    /// Direct child folder names, sorted.
    pub children: Vec<String>,
    /// Distinct assets in this folder's entire subtree.
    pub recursive_count: u64,
}

/// One volume's flat folder list.
#[derive(Debug)]
pub struct BrowseVolume {
    pub id: String,
    pub label: String,
    pub online: bool,
    pub folders: Vec<BrowseFolder>,
}

/// Every volume's folder tree, and the degradation notices gathered.
#[derive(Debug)]
pub struct BrowseTreeOutcome {
    pub volumes: Vec<BrowseVolume>,
    pub notices: Vec<String>,
}

/// A listing request: a folder scope on one volume, sort order, an
/// optional media-kind filter, and pagination.
#[derive(Debug, Clone)]
pub struct BrowseRequest {
    pub volume: String,
    /// `""` for the volume root.
    pub path: String,
    pub flatten: bool,
    /// `"captured"` (the default: newest first), `"name"` (ascending) or
    /// `"size"` (largest first).
    pub sort: Option<String>,
    pub kind: Option<String>,
    pub limit: usize,
    pub offset: usize,
}

/// The listing size every head defaults to.
pub const DEFAULT_LIMIT: usize = 50;

/// The index of the last `/` in `s`, or `-1`.
pub open spec fn last_slash(s: Seq<char>) -> int
    decreases s.len(),
{
    if s.len() == 0 {
        -1
    } else if s.last() == '/' {
        s.len() - 1
    } else {
        last_slash(s.drop_last())
    }
}

/// The directory part of a relative path, `""` for a root-level file.
pub open spec fn dir_part(p: Seq<char>) -> Seq<char> {
    if last_slash(p) < 0 {
        Seq::empty()
    } else {
        p.subrange(0, last_slash(p))
    }
}

/// `s` without its leading `/`s.
pub open spec fn strip_lead(s: Seq<char>) -> Seq<char>
    decreases s.len(),
{
    if s.len() > 0 && s[0] == '/' {
        strip_lead(s.drop_first())
    } else {
        s
    }
}

/// A directory `d` has a segment ending at `e`.
pub open spec fn is_cut(d: Seq<char>, e: int) -> bool {
    0 <= e <= d.len() && (e == d.len() || d[e] == '/')
}

/// Where the segment ending at `e` starts.
pub open spec fn seg_start(d: Seq<char>, e: int) -> int {
    last_slash(d.subrange(0, e)) + 1
}

/// The folder the segment of `d` ending at `e` closes.
pub open spec fn folder_at(d: Seq<char>, e: int) -> Seq<char> {
    strip_lead(d.subrange(0, e))
}

/// The folder holding the segment of `d` ending at `e`.
pub open spec fn parent_at(d: Seq<char>, e: int) -> Seq<char> {
    if seg_start(d, e) == 0 {
        Seq::empty()
    } else {
        strip_lead(d.subrange(0, seg_start(d, e) - 1))
    }
}

/// The name of the segment of `d` ending at `e`.
pub open spec fn child_at(d: Seq<char>, e: int) -> Seq<char> {
    d.subrange(seg_start(d, e), e)
}

/// One folder the path `p` lies in, below the root: its path, its
/// parent's path, and its name there.
pub open spec fn path_mark(p: Seq<char>, m: (Seq<char>, Seq<char>, Seq<char>)) -> bool {
    last_slash(p) >= 0 && exists|e: int|
        is_cut(dir_part(p), e) && m == (
            folder_at(dir_part(p), e),
            parent_at(dir_part(p), e),
            child_at(dir_part(p), e),
        )
}

/// The path `p` lies in folder `f`'s subtree.
pub open spec fn lies_under(p: Seq<char>, f: Seq<char>) -> bool {
    f == Seq::<char>::empty() || exists|m: (Seq<char>, Seq<char>, Seq<char>)| path_mark(p, m) && m.0 == f
}

/// The path `p` makes `c` a child folder of `f`.
pub open spec fn makes_child(p: Seq<char>, f: Seq<char>, c: Seq<char>) -> bool {
    exists|m: (Seq<char>, Seq<char>, Seq<char>)| path_mark(p, m) && m.1 == f && m.2 == c
}

proof fn lemma_last_slash_bound(s: Seq<char>)
    ensures
        -1 <= last_slash(s) < s.len(),
        last_slash(s) >= 0 ==> s[last_slash(s)] == '/',
    decreases s.len(),
{
    if s.len() > 0 && s.last() != '/' {
        lemma_last_slash_bound(s.drop_last());
    }
}

proof fn lemma_last_slash_step(s: Seq<char>, i: int)
    requires
        0 <= i < s.len(),
    ensures
        last_slash(s.subrange(0, i + 1)) == if s[i] == '/' {
            i
        } else {
            last_slash(s.subrange(0, i))
        },
{
    assert(s.subrange(0, i + 1).drop_last() =~= s.subrange(0, i));
}

proof fn lemma_strip_lead_push(s: Seq<char>, c: char)
    ensures
        strip_lead(s.push(c)) == if strip_lead(s).len() == 0 && c == '/' {
            Seq::<char>::empty()
        } else {
            strip_lead(s).push(c)
        },
    decreases s.len(),
{
    if s.len() > 0 && s[0] == '/' {
        lemma_strip_lead_push(s.drop_first(), c);
        assert(s.push(c).drop_first() =~= s.drop_first().push(c));
        assert(s.push(c)[0] == '/');
        assert(strip_lead(s.push(c)) == strip_lead(s.push(c).drop_first()));
        assert(strip_lead(s) == strip_lead(s.drop_first()));
    } else if s.len() == 0 {
        assert(s.push(c)[0] == c);
        if c == '/' {
            assert(s.push(c).drop_first() =~= Seq::<char>::empty());
            assert(strip_lead(s.push(c)) == strip_lead(s.push(c).drop_first()));
        } else {
            assert(strip_lead(s.push(c)) == s.push(c));
        }
    } else {
        assert(s.push(c)[0] == s[0]);
        assert(strip_lead(s.push(c)) == s.push(c));
    }
}

/// The folders a relative path lies in below the root, each as its path,
/// its parent's path and its name, outermost first.
pub fn path_marks(p: &str) -> (marks: Vec<(String, String, String)>)
    ensures
        forall|k: int| 0 <= k < marks.len() ==> path_mark(p@, ((#[trigger] marks@[k]).0@, marks@[k].1@, marks@[k].2@)),
        forall|m: (Seq<char>, Seq<char>, Seq<char>)| path_mark(p@, m) ==> exists|k: int|
            0 <= k < marks.len() && (#[trigger] marks@[k]).0@ == m.0 && marks@[k].1@ == m.1 && marks@[k].2@ == m.2,
{
    let cs = chars_of(p);
    let n = cs.len();
    let mut j: usize = n;
    assert(p@.subrange(0, n as int) =~= p@);
    while j > 0 && cs[j - 1] != '/'
        invariant
            cs@ == p@,
            n == cs.len(),
            j <= n,
            last_slash(p@) == last_slash(p@.subrange(0, j as int)),
        decreases j,
    {
        proof {
            lemma_last_slash_step(p@, j - 1);
        }
        j = j - 1;
    }
    proof {
        assert(p@.subrange(0, n as int) =~= p@);
        if j > 0 {
            lemma_last_slash_step(p@, j - 1);
        } else {
            assert(p@.subrange(0, 0) =~= Seq::<char>::empty());
        }
    }
    let mut marks: Vec<(String, String, String)> = Vec::new();
    if j == 0 {
        assert forall|m: (Seq<char>, Seq<char>, Seq<char>)| !path_mark(p@, m) by {}
        return marks;
    }
    let ls = j - 1;
    let ghost d = p@.subrange(0, ls as int);
    assert(dir_part(p@) == d);
    let mut cur = String::new();
    let mut prev = String::new();
    let mut seg = String::new();
    let mut s: usize = 0;
    let mut i: usize = 0;
    proof {
        assert(d.subrange(0, 0) =~= Seq::<char>::empty());
        assert(cur@ =~= strip_lead(d.subrange(0, 0)));
        assert(seg@ =~= d.subrange(0, 0));
    }
    while i <= ls
        invariant
            cs@ == p@,
            n == cs.len(),
            ls < n,
            last_slash(p@) == ls,
            d == p@.subrange(0, ls as int),
            dir_part(p@) == d,
            s <= i <= ls + 1,
            i <= ls ==> s == seg_start(d, i as int),
            i <= ls ==> cur@ == strip_lead(d.subrange(0, i as int)),
            i <= ls ==> seg@ == d.subrange(s as int, i as int),
            i <= ls ==> prev@ == if s == 0 {
                Seq::<char>::empty()
            } else {
                strip_lead(d.subrange(0, s - 1))
            },
            forall|k: int| 0 <= k < marks.len() ==> path_mark(p@, ((#[trigger] marks@[k]).0@, marks@[k].1@, marks@[k].2@)),
            forall|e: int| 0 <= e < i && is_cut(d, e) ==> exists|k: int|
                0 <= k < marks.len() && (#[trigger] marks@[k]).0@ == folder_at(d, e) && marks@[k].1@ == parent_at(d, e)
                    && marks@[k].2@ == child_at(d, e),
        decreases ls + 1 - i,
    {
        if i == ls || cs[i] == '/' {
            let ghost before = marks@;
            marks.push((cur.clone(), prev.clone(), seg.clone()));
            proof {
                assert(is_cut(d, i as int));
                assert(path_mark(p@, (folder_at(d, i as int), parent_at(d, i as int), child_at(d, i as int))));
                assert forall|e: int| 0 <= e < i + 1 && is_cut(d, e) implies exists|k: int|
                    0 <= k < marks.len() && (#[trigger] marks@[k]).0@ == folder_at(d, e) && marks@[k].1@ == parent_at(d, e)
                        && marks@[k].2@ == child_at(d, e) by {
                    if e < i {
                        let k = choose|k: int|
                            0 <= k < before.len() && (#[trigger] before[k]).0@ == folder_at(d, e) && before[k].1@ == parent_at(
                                d,
                                e,
                            ) && before[k].2@ == child_at(d, e);
                        assert(marks@[k] == before[k]);
                    } else {
                        assert(marks@[before.len() as int].0@ == folder_at(d, e));
                    }
                }
            }
            if i < ls {
                proof {
                    lemma_last_slash_step(d, i as int);
                    lemma_strip_lead_push(d.subrange(0, i as int), '/');
                    assert(d.subrange(0, i + 1) =~= d.subrange(0, i as int).push('/'));
                }
                prev = cur.clone();
                if cur.unicode_len() > 0 {
                    push_char(&mut cur, '/');
                }
                seg = String::new();
                s = i + 1;
                proof {
                    assert(seg@ =~= d.subrange(s as int, i + 1));
                    assert(d.subrange(0, s - 1) =~= d.subrange(0, i as int));
                }
            }
        } else {
            proof {
                lemma_last_slash_step(d, i as int);
                lemma_strip_lead_push(d.subrange(0, i as int), cs[i as int]);
                assert(d.subrange(0, i + 1) =~= d.subrange(0, i as int).push(cs[i as int]));
                assert(d[i as int] == cs[i as int]);
            }
            push_char(&mut cur, cs[i]);
            push_char(&mut seg, cs[i]);
            proof {
                assert(seg@ =~= d.subrange(s as int, i + 1));
            }
        }
        i = i + 1;
    }
    proof {
        assert forall|m: (Seq<char>, Seq<char>, Seq<char>)| path_mark(p@, m) implies exists|k: int|
            0 <= k < marks.len() && (#[trigger] marks@[k]).0@ == m.0 && marks@[k].1@ == m.1 && marks@[k].2@ == m.2 by {
            let e = choose|e: int|
                is_cut(dir_part(p@), e) && m == (
                    folder_at(dir_part(p@), e),
                    parent_at(dir_part(p@), e),
                    child_at(dir_part(p@), e),
                );
            assert(0 <= e < i && is_cut(d, e));
        }
    }
    marks
}


/// The set a keyed list of sets holds at key `k`, or the empty set.
pub open spec fn set_at(keys: Seq<String>, vals: Seq<Vec<String>>, k: Seq<char>) -> Set<Seq<char>> {
    if holds_key(keys, k) {
        key_set(vals[choose|i: int| 0 <= i < keys.len() && #[trigger] keys[i]@ == k]@)
    } else {
        Set::empty()
    }
}

/// A well-formed keyed list of sets: keys strictly sorted, one value list
/// per key, each strictly sorted.
pub open spec fn keyed_sets(keys: Seq<String>, vals: Seq<Vec<String>>) -> bool {
    &&& strictly_sorted(keys)
    &&& vals.len() == keys.len()
    &&& forall|i: int| 0 <= i < vals.len() ==> strictly_sorted(#[trigger] vals[i]@)
}

proof fn lemma_set_at_index(keys: Seq<String>, vals: Seq<Vec<String>>, i: int)
    requires
        strictly_sorted(keys),
        0 <= i < keys.len(),
    ensures
        set_at(keys, vals, keys[i]@) == key_set(vals[i]@),
{
    assert(holds_key(keys, keys[i]@));
    let j = choose|j: int| 0 <= j < keys.len() && #[trigger] keys[j]@ == keys[i]@;
    if j != i {
        lemma_sorted_distinct(keys, i, j);
    }
}

/// Adds `v` to the set at key `k`, adding the key first when absent.
fn upsert(keys: &mut Vec<String>, vals: &mut Vec<Vec<String>>, k: &str, v: &str)
    requires
        keyed_sets(old(keys)@, old(vals)@),
    ensures
        keyed_sets(final(keys)@, final(vals)@),
        key_set(final(keys)@) == key_set(old(keys)@).insert(k@),
        forall|x: Seq<char>| #[trigger] set_at(final(keys)@, final(vals)@, x) == if x == k@ {
            set_at(old(keys)@, old(vals)@, x).insert(v@)
        } else {
            set_at(old(keys)@, old(vals)@, x)
        },
{
    let ghost keys0 = keys@;
    let ghost vals0 = vals@;
    let (idx, inserted) = insert_key(keys, k);
    if inserted {
        vals.insert(idx, Vec::new());
    }
    let ghost vals1 = vals@;
    proof {
        assert(vals1.len() == keys@.len());
        assert forall|i: int| 0 <= i < vals1.len() implies strictly_sorted(#[trigger] vals1[i]@) by {
            if inserted {
                if i < idx {
                    assert(vals1[i] == vals0[i]);
                } else if i > idx {
                    assert(vals1[i] == vals0[i - 1]);
                } else {
                    assert(vals1[i]@.len() == 0);
                }
            }
        }
    }
    let mut inner = vals.remove(idx);
    let ghost inner0 = inner@;
    insert_key(&mut inner, v);
    vals.insert(idx, inner);
    proof {
        let keys1 = keys@;
        let vals2 = vals@;
        assert(vals2 =~= vals1.update(idx as int, vals2[idx as int]));
        assert(key_set(vals2[idx as int]@) == key_set(inner0).insert(v@));
        assert forall|i: int| 0 <= i < vals2.len() implies strictly_sorted(#[trigger] vals2[i]@) by {
            if i != idx {
                assert(vals2[i] == vals1[i]);
            }
        }
        // the set at `k` before
        if inserted {
            assert(!holds_key(keys0, k@));
            assert(key_set(inner0) =~= Set::<Seq<char>>::empty());
        } else {
            lemma_set_at_index(keys0, vals0, idx as int);
            assert(inner0 == vals0[idx as int]@);
        }
        lemma_set_at_index(keys1, vals2, idx as int);
        assert forall|x: Seq<char>| #[trigger] set_at(keys1, vals2, x) == if x == k@ {
            set_at(keys0, vals0, x).insert(v@)
        } else {
            set_at(keys0, vals0, x)
        } by {
            if x != k@ {
                if holds_key(keys0, x) {
                    let j0 = choose|j: int| 0 <= j < keys0.len() && #[trigger] keys0[j]@ == x;
                    lemma_set_at_index(keys0, vals0, j0);
                    let j1 = if inserted && j0 >= idx { j0 + 1 } else { j0 };
                    assert(keys1[j1]@ == x);
                    assert(vals2[j1] == vals0[j0]);
                    lemma_set_at_index(keys1, vals2, j1);
                } else {
                    if holds_key(keys1, x) {
                        let j1 = choose|j: int| 0 <= j < keys1.len() && #[trigger] keys1[j]@ == x;
                        assert(key_set(keys1).contains(x));
                        assert(key_set(keys0).contains(x));
                    }
                }
            }
        }
    }
}

/// The folders the first `n` instances make: the root, and every folder
/// an instance path lies in.
pub open spec fn folders_upto(insts: Seq<(String, String)>, n: int) -> Set<Seq<char>> {
    Set::new(
        |f: Seq<char>|
            f == Seq::<char>::empty() || exists|j: int, m: (Seq<char>, Seq<char>, Seq<char>)|
                0 <= j < n && #[trigger] path_mark(insts[j].1@, m) && m.0 == f,
    )
}

/// The assets, among the first `n` instances, whose path lies under `f`.
pub open spec fn assets_upto(insts: Seq<(String, String)>, n: int, f: Seq<char>) -> Set<Seq<char>> {
    Set::new(|a: Seq<char>| exists|j: int| 0 <= j < n && #[trigger] insts[j].0@ == a && lies_under(insts[j].1@, f))
}

/// The folders, among those the first `n` instances make, that hold a
/// child folder.
pub open spec fn parents_upto(insts: Seq<(String, String)>, n: int) -> Set<Seq<char>> {
    Set::new(
        |f: Seq<char>|
            exists|j: int, m: (Seq<char>, Seq<char>, Seq<char>)|
                0 <= j < n && #[trigger] path_mark(insts[j].1@, m) && m.1 == f,
    )
}

/// The child folders of `f` the first `n` instances make.
pub open spec fn children_upto(insts: Seq<(String, String)>, n: int, f: Seq<char>) -> Set<Seq<char>> {
    Set::new(|c: Seq<char>| exists|j: int| 0 <= j < n && #[trigger] makes_child(insts[j].1@, f, c))
}

/// `folders` is the folder tree of a volume whose instances are `insts`
/// (asset id, relative path): ordered by path, one row per folder, each
/// with its sorted child names and the number of distinct assets in its
/// subtree.
pub open spec fn describes_tree(folders: Seq<BrowseFolder>, insts: Seq<(String, String)>) -> bool {
    &&& forall|i: int, j: int| 0 <= i < j < folders.len() ==> crate::text::seq_lt(
        (#[trigger] folders[i]).path@,
        (#[trigger] folders[j]).path@,
    )
    &&& forall|f: Seq<char>| #[trigger] folders_upto(insts, insts.len() as int).contains(f) <==> exists|i: int|
        0 <= i < folders.len() && #[trigger] folders[i].path@ == f
    &&& forall|i: int|
        0 <= i < folders.len() ==> {
            &&& strictly_sorted((#[trigger] folders[i]).children@)
            &&& key_set(folders[i].children@) == children_upto(insts, insts.len() as int, folders[i].path@)
            &&& folders[i].recursive_count == assets_upto(insts, insts.len() as int, folders[i].path@).len()
        }
}


/// A copy of `v`.
pub fn copy_strings(v: &Vec<String>) -> (out: Vec<String>)
    ensures
        out@ == v@,
{
    let mut out: Vec<String> = Vec::new();
    let mut i: usize = 0;
    while i < v.len()
        invariant
            i <= v.len(),
            out@ == v@.subrange(0, i as int),
        decreases v.len() - i,
    {
        out.push(v[i].clone());
        i = i + 1;
        assert(out@ =~= v@.subrange(0, i as int));
    }
    assert(v@.subrange(0, v.len() as int) =~= v@);
    out
}

/// The marks a path's folder marks put on the tree, the first `k` of them.
pub open spec fn marked_folders(marks: Seq<(String, String, String)>, k: int) -> Set<Seq<char>> {
    Set::new(|f: Seq<char>| exists|kk: int| 0 <= kk < k && (#[trigger] marks[kk]).0@ == f)
}

pub open spec fn marked_parents(marks: Seq<(String, String, String)>, k: int) -> Set<Seq<char>> {
    Set::new(|f: Seq<char>| exists|kk: int| 0 <= kk < k && (#[trigger] marks[kk]).1@ == f)
}

pub open spec fn marked_children(marks: Seq<(String, String, String)>, k: int, f: Seq<char>) -> Set<Seq<char>> {
    Set::new(|c: Seq<char>| exists|kk: int| 0 <= kk < k && (#[trigger] marks[kk]).1@ == f && marks[kk].2@ == c)
}

/// The folder tree of one volume, from its instances, each an asset id
/// and a relative path.
pub fn volume_folders(insts: &Vec<(String, String)>) -> (folders: Vec<BrowseFolder>)
    ensures
        describes_tree(folders@, insts@),
{
    let mut paths: Vec<String> = Vec::new();
    let mut assets: Vec<Vec<String>> = Vec::new();
    paths.push(String::new());
    assets.push(Vec::new());
    let mut parents: Vec<String> = Vec::new();
    let mut kids: Vec<Vec<String>> = Vec::new();
    proof {
        assert(key_set(paths@) =~= folders_upto(insts@, 0)) by {
            assert forall|f: Seq<char>| key_set(paths@).contains(f) <==> folders_upto(insts@, 0).contains(f) by {
                if f == Seq::<char>::empty() {
                    assert(paths@[0]@ == f);
                }
            }
        }
        assert forall|x: Seq<char>| #[trigger] set_at(paths@, assets@, x) == assets_upto(insts@, 0, x) by {
            if holds_key(paths@, x) {
                lemma_set_at_index(paths@, assets@, 0);
                assert(key_set(assets@[0]@) =~= Set::<Seq<char>>::empty());
            }
            assert(assets_upto(insts@, 0, x) =~= Set::<Seq<char>>::empty());
        }
        assert(key_set(parents@) =~= parents_upto(insts@, 0));
        assert forall|x: Seq<char>| #[trigger] set_at(parents@, kids@, x) == children_upto(insts@, 0, x) by {
            assert(children_upto(insts@, 0, x) =~= Set::<Seq<char>>::empty());
        }
    }
    let mut j: usize = 0;
    while j < insts.len()
        invariant
            j <= insts.len(),
            keyed_sets(paths@, assets@),
            keyed_sets(parents@, kids@),
            key_set(paths@) == folders_upto(insts@, j as int),
            forall|x: Seq<char>| #[trigger] set_at(paths@, assets@, x) == assets_upto(insts@, j as int, x),
            key_set(parents@) == parents_upto(insts@, j as int),
            forall|x: Seq<char>| #[trigger] set_at(parents@, kids@, x) == children_upto(insts@, j as int, x),
        decreases insts.len() - j,
    {
        let a = insts[j].0.as_str();
        let p = insts[j].1.as_str();
        upsert(&mut paths, &mut assets, "", a);
        let marks = path_marks(p);
        let mut k: usize = 0;
        proof {
            reveal_strlit("");
            assert(""@ =~= Seq::<char>::empty());
            assert(folders_upto(insts@, j as int).contains(Seq::<char>::empty()));
            assert(marked_folders(marks@, 0) =~= Set::<Seq<char>>::empty());
            assert(marked_parents(marks@, 0) =~= Set::<Seq<char>>::empty());
            assert(key_set(paths@) =~= folders_upto(insts@, j as int).union(marked_folders(marks@, 0)));
            assert forall|x: Seq<char>| #[trigger] set_at(paths@, assets@, x) == if x == Seq::<char>::empty()
                || marked_folders(marks@, 0).contains(x) {
                assets_upto(insts@, j as int, x).insert(a@)
            } else {
                assets_upto(insts@, j as int, x)
            } by {
                assert(!marked_folders(marks@, 0).contains(x));
            }
            assert(key_set(parents@) =~= parents_upto(insts@, j as int).union(marked_parents(marks@, 0)));
            assert forall|x: Seq<char>| #[trigger] set_at(parents@, kids@, x) == children_upto(insts@, j as int, x).union(
                marked_children(marks@, 0, x),
            ) by {
                assert(children_upto(insts@, j as int, x).union(marked_children(marks@, 0, x)) =~= children_upto(
                    insts@,
                    j as int,
                    x,
                ));
            }
        }
        while k < marks.len()
            invariant
                k <= marks.len(),
                keyed_sets(paths@, assets@),
                keyed_sets(parents@, kids@),
                key_set(paths@) == folders_upto(insts@, j as int).union(marked_folders(marks@, k as int)),
                forall|x: Seq<char>| #[trigger] set_at(paths@, assets@, x) == if x == Seq::<char>::empty()
                    || marked_folders(marks@, k as int).contains(x) {
                    assets_upto(insts@, j as int, x).insert(a@)
                } else {
                    assets_upto(insts@, j as int, x)
                },
                key_set(parents@) == parents_upto(insts@, j as int).union(marked_parents(marks@, k as int)),
                forall|x: Seq<char>| #[trigger] set_at(parents@, kids@, x) == children_upto(insts@, j as int, x).union(
                    marked_children(marks@, k as int, x),
                ),
            decreases marks.len() - k,
        {
            upsert(&mut paths, &mut assets, marks[k].0.as_str(), a);
            upsert(&mut parents, &mut kids, marks[k].1.as_str(), marks[k].2.as_str());
            proof {
                let mk = marks@[k as int];
                assert(marked_folders(marks@, k + 1) =~= marked_folders(marks@, k as int).insert(mk.0@)) by {
                    assert forall|f: Seq<char>| marked_folders(marks@, k + 1).contains(f) implies marked_folders(
                        marks@,
                        k as int,
                    ).insert(mk.0@).contains(f) by {
                        let kk = choose|kk: int| 0 <= kk < k + 1 && (#[trigger] marks@[kk]).0@ == f;
                        if kk < k {
                            assert(marked_folders(marks@, k as int).contains(f));
                        }
                    }
                    assert(marked_folders(marks@, k + 1).contains(mk.0@));
                }
                assert(marked_parents(marks@, k + 1) =~= marked_parents(marks@, k as int).insert(mk.1@)) by {
                    assert forall|f: Seq<char>| marked_parents(marks@, k + 1).contains(f) implies marked_parents(
                        marks@,
                        k as int,
                    ).insert(mk.1@).contains(f) by {
                        let kk = choose|kk: int| 0 <= kk < k + 1 && (#[trigger] marks@[kk]).1@ == f;
                        if kk < k {
                            assert(marked_parents(marks@, k as int).contains(f));
                        }
                    }
                    assert(marked_parents(marks@, k + 1).contains(mk.1@));
                }
                assert(key_set(paths@) =~= folders_upto(insts@, j as int).union(marked_folders(marks@, k + 1)));
                assert(key_set(parents@) =~= parents_upto(insts@, j as int).union(marked_parents(marks@, k + 1)));
                assert forall|x: Seq<char>| #[trigger] set_at(parents@, kids@, x) == children_upto(insts@, j as int, x).union(
                    marked_children(marks@, k + 1, x),
                ) by {
                    assert forall|c: Seq<char>| marked_children(marks@, k + 1, x).contains(c) <==> (marked_children(
                        marks@,
                        k as int,
                        x,
                    ).contains(c) || (x == mk.1@ && c == mk.2@)) by {
                        if marked_children(marks@, k + 1, x).contains(c) {
                            let kk = choose|kk: int|
                                0 <= kk < k + 1 && (#[trigger] marks@[kk]).1@ == x && marks@[kk].2@ == c;
                            if kk < k {
                                assert(marked_children(marks@, k as int, x).contains(c));
                            }
                        }
                        if marked_children(marks@, k as int, x).contains(c) {
                            let kk = choose|kk: int| 0 <= kk < k && (#[trigger] marks@[kk]).1@ == x && marks@[kk].2@ == c;
                            assert(0 <= kk < k + 1);
                        }
                        if x == mk.1@ && c == mk.2@ {
                            assert(marks@[k as int].1@ == x);
                        }
                    }
                    assert(children_upto(insts@, j as int, x).union(marked_children(marks@, k + 1, x)) =~= if x == mk.1@ {
                        children_upto(insts@, j as int, x).union(marked_children(marks@, k as int, x)).insert(mk.2@)
                    } else {
                        children_upto(insts@, j as int, x).union(marked_children(marks@, k as int, x))
                    });
                }
                assert forall|x: Seq<char>| #[trigger] set_at(paths@, assets@, x) == if x == Seq::<char>::empty()
                    || marked_folders(marks@, k + 1).contains(x) {
                    assets_upto(insts@, j as int, x).insert(a@)
                } else {
                    assets_upto(insts@, j as int, x)
                } by {
                    if x == mk.0@ {
                        assert(marked_folders(marks@, k + 1).contains(x));
                        assert(assets_upto(insts@, j as int, x).insert(a@).insert(a@) =~= assets_upto(
                            insts@,
                            j as int,
                            x,
                        ).insert(a@));
                    }
                }
            }
            k = k + 1;
        }
        proof {
            let pj = insts@[j as int].1@;
            assert(insts@[j as int].0@ == a@);
            assert forall|f: Seq<char>| #[trigger] marked_folders(marks@, marks@.len() as int).contains(f) <==> exists|
                m: (Seq<char>, Seq<char>, Seq<char>),
            | path_mark(pj, m) && m.0 == f by {
                if marked_folders(marks@, marks@.len() as int).contains(f) {
                    let kk = choose|kk: int| 0 <= kk < marks@.len() && (#[trigger] marks@[kk]).0@ == f;
                    let m = (marks@[kk].0@, marks@[kk].1@, marks@[kk].2@);
                    assert(path_mark(pj, m));
                }
                if exists|m: (Seq<char>, Seq<char>, Seq<char>)| path_mark(pj, m) && m.0 == f {
                    let m = choose|m: (Seq<char>, Seq<char>, Seq<char>)| path_mark(pj, m) && m.0 == f;
                    let kk = choose|kk: int|
                        0 <= kk < marks@.len() && (#[trigger] marks@[kk]).0@ == m.0 && marks@[kk].1@ == m.1
                            && marks@[kk].2@ == m.2;
                    assert(marked_folders(marks@, marks@.len() as int).contains(f));
                }
            }
            assert forall|f: Seq<char>| #[trigger] marked_parents(marks@, marks@.len() as int).contains(f) <==> exists|
                m: (Seq<char>, Seq<char>, Seq<char>),
            | path_mark(pj, m) && m.1 == f by {
                if marked_parents(marks@, marks@.len() as int).contains(f) {
                    let kk = choose|kk: int| 0 <= kk < marks@.len() && (#[trigger] marks@[kk]).1@ == f;
                    let m = (marks@[kk].0@, marks@[kk].1@, marks@[kk].2@);
                    assert(path_mark(pj, m));
                }
                if exists|m: (Seq<char>, Seq<char>, Seq<char>)| path_mark(pj, m) && m.1 == f {
                    let m = choose|m: (Seq<char>, Seq<char>, Seq<char>)| path_mark(pj, m) && m.1 == f;
                    let kk = choose|kk: int|
                        0 <= kk < marks@.len() && (#[trigger] marks@[kk]).0@ == m.0 && marks@[kk].1@ == m.1
                            && marks@[kk].2@ == m.2;
                    assert(marked_parents(marks@, marks@.len() as int).contains(f));
                }
            }
            assert forall|x: Seq<char>, c: Seq<char>| #[trigger] marked_children(marks@, marks@.len() as int, x).contains(c)
                <==> makes_child(pj, x, c) by {
                if marked_children(marks@, marks@.len() as int, x).contains(c) {
                    let kk = choose|kk: int|
                        0 <= kk < marks@.len() && (#[trigger] marks@[kk]).1@ == x && marks@[kk].2@ == c;
                    let m = (marks@[kk].0@, marks@[kk].1@, marks@[kk].2@);
                    assert(path_mark(pj, m));
                }
                if makes_child(pj, x, c) {
                    let m = choose|m: (Seq<char>, Seq<char>, Seq<char>)| path_mark(pj, m) && m.1 == x && m.2 == c;
                    let kk = choose|kk: int|
                        0 <= kk < marks@.len() && (#[trigger] marks@[kk]).0@ == m.0 && marks@[kk].1@ == m.1
                            && marks@[kk].2@ == m.2;
                    assert(marked_children(marks@, marks@.len() as int, x).contains(c));
                }
            }
            let n1 = j + 1;
            assert(key_set(paths@) =~= folders_upto(insts@, n1 as int)) by {
                assert forall|f: Seq<char>| folders_upto(insts@, n1 as int).contains(f) <==> (folders_upto(
                    insts@,
                    j as int,
                ).contains(f) || marked_folders(marks@, marks@.len() as int).contains(f)) by {
                    if folders_upto(insts@, n1 as int).contains(f) && f != Seq::<char>::empty() {
                        let (jj, m) = choose|jj: int, m: (Seq<char>, Seq<char>, Seq<char>)|
                            0 <= jj < n1 && #[trigger] path_mark(insts@[jj].1@, m) && m.0 == f;
                        if jj < j {
                            assert(folders_upto(insts@, j as int).contains(f));
                        }
                    }
                    if folders_upto(insts@, j as int).contains(f) && f != Seq::<char>::empty() {
                        let (jj, m) = choose|jj: int, m: (Seq<char>, Seq<char>, Seq<char>)|
                            0 <= jj < j && #[trigger] path_mark(insts@[jj].1@, m) && m.0 == f;
                        assert(0 <= jj < n1);
                    }
                    if marked_folders(marks@, marks@.len() as int).contains(f) {
                        let m = choose|m: (Seq<char>, Seq<char>, Seq<char>)| path_mark(pj, m) && m.0 == f;
                        assert(path_mark(insts@[j as int].1@, m));
                    }
                }
            }
            assert(key_set(parents@) =~= parents_upto(insts@, n1 as int)) by {
                assert forall|f: Seq<char>| parents_upto(insts@, n1 as int).contains(f) <==> (parents_upto(
                    insts@,
                    j as int,
                ).contains(f) || marked_parents(marks@, marks@.len() as int).contains(f)) by {
                    if parents_upto(insts@, n1 as int).contains(f) {
                        let (jj, m) = choose|jj: int, m: (Seq<char>, Seq<char>, Seq<char>)|
                            0 <= jj < n1 && #[trigger] path_mark(insts@[jj].1@, m) && m.1 == f;
                        if jj < j {
                            assert(parents_upto(insts@, j as int).contains(f));
                        }
                    }
                    if parents_upto(insts@, j as int).contains(f) {
                        let (jj, m) = choose|jj: int, m: (Seq<char>, Seq<char>, Seq<char>)|
                            0 <= jj < j && #[trigger] path_mark(insts@[jj].1@, m) && m.1 == f;
                        assert(0 <= jj < n1);
                    }
                    if marked_parents(marks@, marks@.len() as int).contains(f) {
                        let m = choose|m: (Seq<char>, Seq<char>, Seq<char>)| path_mark(pj, m) && m.1 == f;
                        assert(path_mark(insts@[j as int].1@, m));
                    }
                }
            }
            assert forall|x: Seq<char>| #[trigger] set_at(parents@, kids@, x) == children_upto(insts@, n1 as int, x) by {
                assert forall|c: Seq<char>| children_upto(insts@, n1 as int, x).contains(c) <==> (children_upto(
                    insts@,
                    j as int,
                    x,
                ).contains(c) || marked_children(marks@, marks@.len() as int, x).contains(c)) by {
                    if children_upto(insts@, n1 as int, x).contains(c) {
                        let jj = choose|jj: int| 0 <= jj < n1 && #[trigger] makes_child(insts@[jj].1@, x, c);
                        if jj < j {
                            assert(children_upto(insts@, j as int, x).contains(c));
                        }
                    }
                    if children_upto(insts@, j as int, x).contains(c) {
                        let jj = choose|jj: int| 0 <= jj < j && #[trigger] makes_child(insts@[jj].1@, x, c);
                        assert(0 <= jj < n1);
                    }
                    if marked_children(marks@, marks@.len() as int, x).contains(c) {
                        assert(makes_child(insts@[j as int].1@, x, c));
                    }
                }
                assert(children_upto(insts@, n1 as int, x) =~= children_upto(insts@, j as int, x).union(
                    marked_children(marks@, marks@.len() as int, x),
                ));
            }
            assert forall|x: Seq<char>| #[trigger] set_at(paths@, assets@, x) == assets_upto(insts@, n1 as int, x) by {
                let under = x == Seq::<char>::empty() || marked_folders(marks@, marks@.len() as int).contains(x);
                assert(under == lies_under(pj, x));
                assert forall|b: Seq<char>| assets_upto(insts@, n1 as int, x).contains(b) <==> (assets_upto(
                    insts@,
                    j as int,
                    x,
                ).contains(b) || (under && b == a@)) by {
                    if assets_upto(insts@, n1 as int, x).contains(b) {
                        let jj = choose|jj: int|
                            0 <= jj < n1 && #[trigger] insts@[jj].0@ == b && lies_under(insts@[jj].1@, x);
                        if jj < j {
                            assert(assets_upto(insts@, j as int, x).contains(b));
                        }
                    }
                    if assets_upto(insts@, j as int, x).contains(b) {
                        let jj = choose|jj: int|
                            0 <= jj < j && #[trigger] insts@[jj].0@ == b && lies_under(insts@[jj].1@, x);
                        assert(0 <= jj < n1);
                    }
                    if under && b == a@ {
                        assert(insts@[j as int].0@ == b);
                    }
                }
                if under {
                    assert(assets_upto(insts@, n1 as int, x) =~= assets_upto(insts@, j as int, x).insert(a@));
                } else {
                    assert(assets_upto(insts@, n1 as int, x) =~= assets_upto(insts@, j as int, x));
                }
            }
        }
        j = j + 1;
    }
    let mut folders: Vec<BrowseFolder> = Vec::new();
    let mut i: usize = 0;
    while i < paths.len()
        invariant
            i <= paths.len(),
            keyed_sets(paths@, assets@),
            keyed_sets(parents@, kids@),
            folders.len() == i,
            forall|ii: int| 0 <= ii < i ==> (#[trigger] folders@[ii]).path@ == paths@[ii]@,
            forall|ii: int|
                0 <= ii < i ==> {
                    &&& strictly_sorted((#[trigger] folders@[ii]).children@)
                    &&& key_set(folders@[ii].children@) == set_at(parents@, kids@, paths@[ii]@)
                    &&& folders@[ii].recursive_count == set_at(paths@, assets@, paths@[ii]@).len()
                },
        decreases paths.len() - i,
    {
        let (slot, found) = slot_of(&parents, paths[i].as_str());
        let children = if found {
            copy_strings(&kids[slot])
        } else {
            Vec::new()
        };
        proof {
            if found {
                lemma_set_at_index(parents@, kids@, slot as int);
            } else {
                assert(key_set(children@) =~= Set::<Seq<char>>::empty());
            }
            lemma_set_at_index(paths@, assets@, i as int);
            lemma_key_set_len(assets@[i as int]@);
        }
        let count = assets[i].len() as u64;
        folders.push(BrowseFolder { path: paths[i].clone(), children, recursive_count: count });
        i = i + 1;
    }
    proof {
        assert forall|f: Seq<char>| #[trigger] folders_upto(insts@, insts@.len() as int).contains(f) <==> exists|ii: int|
            0 <= ii < folders.len() && #[trigger] folders@[ii].path@ == f by {
            if key_set(paths@).contains(f) {
                let ii = choose|ii: int| 0 <= ii < paths@.len() && #[trigger] paths@[ii]@ == f;
                assert(folders@[ii].path@ == f);
            }
            if exists|ii: int| 0 <= ii < folders.len() && #[trigger] folders@[ii].path@ == f {
                let ii = choose|ii: int| 0 <= ii < folders.len() && #[trigger] folders@[ii].path@ == f;
                assert(paths@[ii]@ == f);
                assert(key_set(paths@).contains(f));
            }
        }
    }
    folders
}


/// A cataloged volume, and whether it is mounted now.
#[derive(Debug)]
pub struct VolumeRow {
    pub id: String,
    pub label: String,
    pub online: bool,
}

/// One cataloged instance: the asset, the volume and relative path it
/// sits at, its size and modification time, and the media kind its path
/// names.
#[derive(Debug)]
pub struct InstanceRow {
    pub asset: String,
    pub volume: String,
    pub path: String,
    pub size: u64,
    pub mtime_ms: u64,
    pub kind: String,
}

/// The notice for one offline volume: its cataloged data is still
/// browsable, only the live mount is gone.
pub open spec fn offline_text(label: Seq<char>) -> Seq<char> {
    "volume '"@ + label + "' is offline — showing cataloged data only"@
}

/// The one notice for several offline volumes: a single line for one, a
/// count and the names for more.
pub open spec fn offline_summary_text(labels: Seq<Seq<char>>) -> Seq<char> {
    if labels.len() == 1 {
        offline_text(labels[0])
    } else {
        decimal(labels.len()) + " volumes are offline — showing cataloged data only: "@ + joined(labels, ", "@)
    }
}

pub fn offline_notice(label: &str) -> (m: String)
    ensures
        m@ == offline_text(label@),
{
    let head = cat("volume '", label);
    cat(head.as_str(), "' is offline — showing cataloged data only")
}

pub fn offline_notice_summary(labels: &Vec<String>) -> (m: String)
    ensures
        m@ == offline_summary_text(string_views(labels@)),
{
    if labels.len() == 1 {
        return offline_notice(labels[0].as_str());
    }
    let mut m = String::new();
    push_decimal(&mut m, labels.len() as u64);
    m.append(" volumes are offline — showing cataloged data only: ");
    let list = join_strings(labels, ", ");
    m.append(list.as_str());
    m
}

/// The (asset, path) pairs of the instances on volume `v`, in order.
pub open spec fn on_volume(insts: Seq<InstanceRow>, v: Seq<char>) -> Seq<(String, String)>
    decreases insts.len(),
{
    if insts.len() == 0 {
        Seq::empty()
    } else {
        let rest = on_volume(insts.drop_last(), v);
        if insts.last().volume@ == v {
            rest.push((insts.last().asset, insts.last().path))
        } else {
            rest
        }
    }
}

/// The labels of the offline volumes, in order.
pub open spec fn offline_labels(vols: Seq<VolumeRow>) -> Seq<Seq<char>>
    decreases vols.len(),
{
    if vols.len() == 0 {
        Seq::empty()
    } else if !vols.last().online {
        offline_labels(vols.drop_last()).push(vols.last().label@)
    } else {
        offline_labels(vols.drop_last())
    }
}

fn instances_on(insts: &Vec<InstanceRow>, v: &str) -> (out: Vec<(String, String)>)
    ensures
        out@ == on_volume(insts@, v@),
{
    let mut out: Vec<(String, String)> = Vec::new();
    let mut i: usize = 0;
    while i < insts.len()
        invariant
            i <= insts.len(),
            out@ == on_volume(insts@.subrange(0, i as int), v@),
        decreases insts.len() - i,
    {
        proof {
            assert(insts@.subrange(0, i + 1).drop_last() =~= insts@.subrange(0, i as int));
        }
        if str_eq(insts[i].volume.as_str(), v) {
            out.push((insts[i].asset.clone(), insts[i].path.clone()));
        }
        i = i + 1;
    }
    assert(insts@.subrange(0, insts.len() as int) =~= insts@);
    out
}

/// Every volume's folder tree: each cataloged volume in the given order,
/// its folders derived from the instances on it; then, ahead of the
/// `pending` notices, one notice naming the offline volumes if any is.
pub fn browse_tree(vols: &Vec<VolumeRow>, insts: &Vec<InstanceRow>, pending: Vec<String>) -> (out: BrowseTreeOutcome)
    ensures
        out.volumes.len() == vols.len(),
        forall|i: int|
            0 <= i < vols.len() ==> {
                &&& (#[trigger] out.volumes@[i]).id@ == vols@[i].id@
                &&& out.volumes@[i].label@ == vols@[i].label@
                &&& out.volumes@[i].online == vols@[i].online
                &&& describes_tree(out.volumes@[i].folders@, on_volume(insts@, vols@[i].id@))
            },
        offline_labels(vols@).len() == 0 ==> string_views(out.notices@) == string_views(pending@),
        offline_labels(vols@).len() > 0 ==> string_views(out.notices@) == seq![offline_summary_text(offline_labels(vols@))]
            + string_views(pending@),
{
    let mut volumes: Vec<BrowseVolume> = Vec::new();
    let mut offline: Vec<String> = Vec::new();
    let mut i: usize = 0;
    while i < vols.len()
        invariant
            i <= vols.len(),
            volumes.len() == i,
            string_views(offline@) == offline_labels(vols@.subrange(0, i as int)),
            forall|k: int|
                0 <= k < i ==> {
                    &&& (#[trigger] volumes@[k]).id@ == vols@[k].id@
                    &&& volumes@[k].label@ == vols@[k].label@
                    &&& volumes@[k].online == vols@[k].online
                    &&& describes_tree(volumes@[k].folders@, on_volume(insts@, vols@[k].id@))
                },
        decreases vols.len() - i,
    {
        let v = &vols[i];
        proof {
            assert(vols@.subrange(0, i + 1).drop_last() =~= vols@.subrange(0, i as int));
        }
        if !v.online {
            offline.push(v.label.clone());
        }
        proof {
            assert(string_views(offline@) =~= offline_labels(vols@.subrange(0, i + 1)));
        }
        let on = instances_on(insts, v.id.as_str());
        let folders = volume_folders(&on);
        volumes.push(BrowseVolume { id: v.id.clone(), label: v.label.clone(), online: v.online, folders });
        i = i + 1;
    }
    assert(vols@.subrange(0, vols.len() as int) =~= vols@);
    let mut notices: Vec<String> = Vec::new();
    if offline.len() > 0 {
        notices.push(offline_notice_summary(&offline));
    }
    let ghost head = notices@;
    let ghost tail = pending@;
    let mut pending = pending;
    notices.append(&mut pending);
    assert(string_views(notices@) =~= string_views(head) + string_views(tail));
    BrowseTreeOutcome { volumes, notices }
}


/// The directory part of a relative path.
pub fn parent_dir(p: &str) -> (d: String)
    ensures
        d@ == dir_part(p@),
{
    let cs = chars_of(p);
    let n = cs.len();
    let mut j: usize = n;
    assert(p@.subrange(0, n as int) =~= p@);
    while j > 0 && cs[j - 1] != '/'
        invariant
            cs@ == p@,
            n == cs.len(),
            j <= n,
            last_slash(p@) == last_slash(p@.subrange(0, j as int)),
        decreases j,
    {
        proof {
            lemma_last_slash_step(p@, j - 1);
        }
        j = j - 1;
    }
    if j == 0 {
        proof {
            assert(p@.subrange(0, 0) =~= Seq::<char>::empty());
        }
        return String::new();
    }
    proof {
        lemma_last_slash_step(p@, j - 1);
    }
    string_of_range(&cs, 0, j - 1)
}

/// The listing's folder test: a flattened scope takes every path nested
/// anywhere under it (everything, at the root), an unflattened one only
/// the paths directly in it.
pub open spec fn scoped(path: Seq<char>, scope: Seq<char>, flatten: bool) -> bool {
    if flatten {
        scope.len() == 0 || is_prefix(scope + "/"@, path)
    } else {
        dir_part(path) == scope
    }
}

/// The instances a request selects, in order: on its volume, in its
/// folder scope, and of its media kind when it names one.
pub open spec fn selected(insts: Seq<InstanceRow>, req: BrowseRequest) -> Seq<InstanceRow>
    decreases insts.len(),
{
    if insts.len() == 0 {
        Seq::empty()
    } else {
        let rest = selected(insts.drop_last(), req);
        let r = insts.last();
        if r.volume@ == req.volume@ && scoped(r.path@, req.path@, req.flatten) && match req.kind {
            None => true,
            Some(k) => r.kind@ == k@,
        } {
            rest.push(r)
        } else {
            rest
        }
    }
}

/// `c` makes a better representative of its asset than `cur`: newer, or
/// as new with the smaller path.
pub open spec fn better(c: InstanceRow, cur: InstanceRow) -> bool {
    c.mtime_ms > cur.mtime_ms || (c.mtime_ms == cur.mtime_ms && seq_lt(c.path@, cur.path@))
}

/// `r` is one of `ms`.
pub open spec fn one_of(ms: Seq<InstanceRow>, r: InstanceRow) -> bool {
    exists|i: int| 0 <= i < ms.len() && ms[i] == r
}

/// `out` holds an instance of `r`'s asset that `r` is not better than.
pub open spec fn represented(out: Seq<InstanceRow>, r: InstanceRow) -> bool {
    exists|k: int| 0 <= k < out.len() && (#[trigger] out[k]).asset@ == r.asset@ && !better(r, out[k])
}

/// `out` holds one representative per asset of `ms`, ordered by asset:
/// an instance of that asset that no other instance of it is better than.
pub open spec fn representatives(out: Seq<InstanceRow>, ms: Seq<InstanceRow>) -> bool {
    &&& forall|i: int, j: int| 0 <= i < j < out.len() ==> seq_lt((#[trigger] out[i]).asset@, (#[trigger] out[j]).asset@)
    &&& forall|k: int| 0 <= k < out.len() ==> one_of(ms, #[trigger] out[k])
    &&& forall|i: int| 0 <= i < ms.len() ==> represented(out, #[trigger] ms[i])
}

/// The distinct folders holding the instances `ms`.
pub open spec fn holding_folders(ms: Seq<InstanceRow>) -> Set<Seq<char>> {
    Set::new(|d: Seq<char>| exists|i: int| 0 <= i < ms.len() && dir_part((#[trigger] ms[i]).path@) == d)
}

/// Why a listing request is refused, checked in order: an unknown sort,
/// an unknown kind (`kinds` are the known ones), a volume not cataloged.
pub open spec fn request_error(req: BrowseRequest, vols: Seq<VolumeRow>, kinds: Seq<Seq<char>>) -> Option<Seq<char>> {
    if req.sort matches Some(s) && !(s@ == "captured"@ || s@ == "name"@ || s@ == "size"@) {
        Some("unknown sort '"@ + req.sort->0@ + "' — one of: captured, name, size"@)
    } else if req.kind matches Some(k) && !kinds.contains(k@) {
        Some("unknown kind '"@ + req.kind->0@ + "' — one of: "@ + joined(kinds, ", "@))
    } else if !(exists|i: int| 0 <= i < vols.len() && #[trigger] vols[i].id@ == req.volume@) {
        Some("unknown volume '"@ + req.volume@ + "' — run `maj volumes list`"@)
    } else {
        None
    }
}

/// A listing request's scope: the volume's label and notices, its
/// selected instances collapsed to one representative per asset, and how
/// many distinct folders the selected instances sit in.
#[derive(Debug)]
pub struct BrowseScope {
    pub label: String,
    pub notices: Vec<String>,
    pub matches: Vec<InstanceRow>,
    pub folder_count: u64,
}

/// A copy of `r`.
pub fn copy_instance(r: &InstanceRow) -> (c: InstanceRow)
    ensures
        c == *r,
{
    InstanceRow {
        asset: r.asset.clone(),
        volume: r.volume.clone(),
        path: r.path.clone(),
        size: r.size,
        mtime_ms: r.mtime_ms,
        kind: r.kind.clone(),
    }
}

fn is_better(c: &InstanceRow, cur: &InstanceRow) -> (r: bool)
    ensures
        r == better(*c, *cur),
{
    if c.mtime_ms != cur.mtime_ms {
        return c.mtime_ms > cur.mtime_ms;
    }
    str_lt(c.path.as_str(), cur.path.as_str())
}

proof fn lemma_better_transitive(a: InstanceRow, b: InstanceRow, c: InstanceRow)
    requires
        better(a, b),
        better(b, c),
    ensures
        better(a, c),
{
    if a.mtime_ms == b.mtime_ms && b.mtime_ms == c.mtime_ms {
        lemma_seq_lt_transitive(a.path@, b.path@, c.path@);
    }
}

/// Collapses instances to one per asset, ordered by asset: the newest
/// instance of each, ties going to the smaller path.
pub fn dedupe_by_asset(ms: &Vec<InstanceRow>) -> (out: Vec<InstanceRow>)
    ensures
        representatives(out@, ms@),
{
    let mut best: Vec<InstanceRow> = Vec::new();
    let mut i: usize = 0;
    while i < ms.len()
        invariant
            i <= ms.len(),
            forall|a: int, b: int| 0 <= a < b < best.len() ==> seq_lt((#[trigger] best@[a]).asset@, (#[trigger] best@[b]).asset@),
            forall|k: int| 0 <= k < best.len() ==> one_of(ms@, #[trigger] best@[k]),
            forall|ii: int| 0 <= ii < i ==> represented(best@, #[trigger] ms@[ii]),
        decreases ms.len() - i,
    {
        let r = &ms[i];
        let mut k: usize = 0;
        while k < best.len() && str_lt(best[k].asset.as_str(), r.asset.as_str())
            invariant
                k <= best.len(),
                forall|a: int| 0 <= a < k ==> seq_lt((#[trigger] best@[a]).asset@, r.asset@),
            decreases best.len() - k,
        {
            k = k + 1;
        }
        let ghost before = best@;
        if k < best.len() && str_eq(best[k].asset.as_str(), r.asset.as_str()) {
            if is_better(r, &best[k]) {
                let c = copy_instance(r);
                best.set(k, c);
                proof {
                    assert forall|ii: int| 0 <= ii < i + 1 implies represented(best@, #[trigger] ms@[ii]) by {
                        if ii < i {
                            assert(represented(before, ms@[ii]));
                            let kk = choose|kk: int|
                                0 <= kk < before.len() && (#[trigger] before[kk]).asset@ == (#[trigger] ms@[ii]).asset@
                                    && !better(ms@[ii], before[kk]);
                            if kk == k {
                                if better(ms@[ii], best@[kk]) {
                                    lemma_better_transitive(ms@[ii], best@[kk], before[kk]);
                                }
                            }
                            assert(best@[kk].asset@ == ms@[ii].asset@);
                        } else {
                            assert(best@[k as int] == ms@[ii]);
                            lemma_seq_lt_irreflexive(ms@[ii].path@);
                            assert(best@[k as int].asset@ == ms@[ii].asset@ && !better(ms@[ii], best@[k as int]));
                        }
                    }
                    assert forall|kk: int| 0 <= kk < best.len() implies one_of(ms@, #[trigger] best@[kk]) by {
                        if kk == k {
                            assert(ms@[i as int] == best@[kk]);
                        } else {
                            assert(best@[kk] == before[kk]);
                            assert(one_of(ms@, before[kk]));
                        }
                    }
                }
            } else {
                proof {
                    assert(best@[k as int].asset@ == ms@[i as int].asset@);
                    assert(represented(best@, ms@[i as int]));
                }
            }
        } else {
            let c = copy_instance(r);
            best.insert(k, c);
            proof {
                if k < before.len() {
                    lemma_seq_lt_total(before[k as int].asset@, r.asset@);
                }
                assert forall|a: int, b: int| 0 <= a < b < best.len() implies seq_lt(
                    (#[trigger] best@[a]).asset@,
                    (#[trigger] best@[b]).asset@,
                ) by {
                    if a < k && b == k {
                    } else if a < k && b > k {
                        assert(best@[b] == before[b - 1]);
                    } else if a == k && b > k {
                        assert(best@[b] == before[b - 1]);
                        if b - 1 > k {
                            lemma_seq_lt_transitive(r.asset@, before[k as int].asset@, before[b - 1].asset@);
                        }
                    } else if a > k {
                        assert(best@[a] == before[a - 1]);
                        assert(best@[b] == before[b - 1]);
                    }
                }
                assert forall|ii: int| 0 <= ii < i + 1 implies represented(best@, #[trigger] ms@[ii]) by {
                    if ii < i {
                        assert(represented(before, ms@[ii]));
                        let kk = choose|kk: int|
                            0 <= kk < before.len() && (#[trigger] before[kk]).asset@ == (#[trigger] ms@[ii]).asset@
                                && !better(ms@[ii], before[kk]);
                        if kk < k {
                            assert(best@[kk] == before[kk]);
                        } else {
                            assert(best@[kk + 1] == before[kk]);
                        }
                    } else {
                        assert(best@[k as int] == ms@[ii]);
                        lemma_seq_lt_irreflexive(ms@[ii].path@);
                        assert(best@[k as int].asset@ == ms@[ii].asset@ && !better(ms@[ii], best@[k as int]));
                    }
                }
                assert forall|kk: int| 0 <= kk < best.len() implies one_of(ms@, #[trigger] best@[kk]) by {
                    if kk == k {
                        assert(ms@[i as int] == best@[kk]);
                    } else if kk < k {
                        assert(best@[kk] == before[kk]);
                        assert(one_of(ms@, before[kk]));
                    } else {
                        assert(best@[kk] == before[kk - 1]);
                        assert(one_of(ms@, before[kk - 1]));
                    }
                }
            }
        }
        i = i + 1;
    }
    best
}


/// Whether `path` falls under `scope`; `prefix` is `scope` followed by
/// `/`, computed once by the caller, or absent for a flattened listing of
/// the whole volume.
pub fn in_scope(path: &str, scope: &str, flatten: bool, prefix: Option<&str>) -> (r: bool)
    requires
        match prefix {
            Some(p) => p@ == scope@ + "/"@ && scope@.len() > 0,
            None => !flatten || scope@.len() == 0,
        },
    ensures
        r == scoped(path@, scope@, flatten),
{
    if flatten {
        match prefix {
            None => true,
            Some(p) => starts_with(path, p),
        }
    } else {
        let d = parent_dir(path);
        str_eq(d.as_str(), scope)
    }
}

/// Refuses a sort that is not one of `captured`, `name` or `size`.
pub fn validate_sort(sort: Option<&str>) -> (r: Result<(), String>)
    ensures
        match sort {
            Some(s) => if s@ == "captured"@ || s@ == "name"@ || s@ == "size"@ {
                r is Ok
            } else {
                r matches Err(e) && e@ == "unknown sort '"@ + s@ + "' — one of: captured, name, size"@
            },
            None => r is Ok,
        },
{
    if let Some(s) = sort {
        if !(str_eq(s, "captured") || str_eq(s, "name") || str_eq(s, "size")) {
            let head = cat("unknown sort '", s);
            return Err(cat(head.as_str(), "' — one of: captured, name, size"));
        }
    }
    Ok(())
}

/// Refuses a media kind that is not one of `kinds`.
pub fn validate_kind(kind: Option<&str>, kinds: &Vec<String>) -> (r: Result<(), String>)
    ensures
        match kind {
            Some(k) => if string_views(kinds@).contains(k@) {
                r is Ok
            } else {
                r matches Err(e) && e@ == "unknown kind '"@ + k@ + "' — one of: "@ + joined(string_views(kinds@), ", "@)
            },
            None => r is Ok,
        },
{
    if let Some(k) = kind {
        if !known_kind(kinds, k) {
            let head = cat("unknown kind '", k);
            let head = cat(head.as_str(), "' — one of: ");
            let list = join_strings(kinds, ", ");
            return Err(cat(head.as_str(), list.as_str()));
        }
    }
    Ok(())
}

fn known_kind(kinds: &Vec<String>, k: &str) -> (r: bool)
    ensures
        r == string_views(kinds@).contains(k@),
{
    let mut i: usize = 0;
    while i < kinds.len()
        invariant
            i <= kinds.len(),
            forall|j: int| 0 <= j < i ==> kinds@[j]@ != k@,
        decreases kinds.len() - i,
    {
        if str_eq(kinds[i].as_str(), k) {
            assert(string_views(kinds@)[i as int] == k@);
            return true;
        }
        i = i + 1;
    }
    proof {
        if string_views(kinds@).contains(k@) {
            let j = choose|j: int| 0 <= j < string_views(kinds@).len() && string_views(kinds@)[j] == k@;
            assert(kinds@[j]@ == k@);
        }
    }
    false
}

/// The first cataloged volume with id `v`.
pub open spec fn first_volume(vols: Seq<VolumeRow>, v: Seq<char>, n: nat) -> Option<int>
    decreases n,
{
    if n == 0 {
        None
    } else {
        match first_volume(vols, v, (n - 1) as nat) {
            Some(i) => Some(i),
            None => if vols[n - 1].id@ == v {
                Some(n - 1)
            } else {
                None
            },
        }
    }
}

proof fn lemma_first_volume(vols: Seq<VolumeRow>, v: Seq<char>, n: nat)
    ensures
        first_volume(vols, v, n) matches Some(i) ==> 0 <= i < n && vols[i].id@ == v,
        first_volume(vols, v, n) is None ==> forall|i: int| 0 <= i < n ==> (#[trigger] vols[i]).id@ != v,
    decreases n,
{
    if n > 0 {
        lemma_first_volume(vols, v, (n - 1) as nat);
    }
}

proof fn lemma_first_volume_sticks(vols: Seq<VolumeRow>, v: Seq<char>, k: nat, n: nat)
    requires
        k <= n,
        first_volume(vols, v, k) is Some,
    ensures
        first_volume(vols, v, n) == first_volume(vols, v, k),
    decreases n - k,
{
    if n > k {
        lemma_first_volume_sticks(vols, v, k, (n - 1) as nat);
    }
}

/// Resolves a listing request against the catalog: refuses an unknown
/// sort, kind or volume, in that order; otherwise yields the volume's
/// label, a notice when it is offline, its selected instances collapsed
/// to one per asset, and how many distinct folders hold a selected
/// instance (two instances of one asset in two folders count both).
pub fn browse_scope(
    req: &BrowseRequest,
    vols: &Vec<VolumeRow>,
    kinds: &Vec<String>,
    insts: &Vec<InstanceRow>,
) -> (r: Result<BrowseScope, String>)
    ensures
        request_error(*req, vols@, string_views(kinds@)) matches Some(m) ==> (r matches Err(e) && e@ == m),
        request_error(*req, vols@, string_views(kinds@)) is None ==> (r matches Ok(sc) && {
            let v = first_volume(vols@, req.volume@, vols@.len())->0;
            &&& first_volume(vols@, req.volume@, vols@.len()) is Some
            &&& sc.label@ == vols@[v].label@
            &&& string_views(sc.notices@) == if vols@[v].online {
                Seq::<Seq<char>>::empty()
            } else {
                seq![offline_text(vols@[v].label@)]
            }
            &&& representatives(sc.matches@, selected(insts@, *req))
            &&& sc.folder_count == holding_folders(selected(insts@, *req)).len()
        }),
{
    proof {
        reveal_strlit("captured");
        reveal_strlit("name");
        reveal_strlit("size");
    }
    let sort: Option<&str> = match &req.sort {
        Some(s) => Some(s.as_str()),
        None => None,
    };
    match validate_sort(sort) {
        Err(e) => return Err(e),
        Ok(()) => {},
    }
    let kind: Option<&str> = match &req.kind {
        Some(k) => Some(k.as_str()),
        None => None,
    };
    match validate_kind(kind, kinds) {
        Err(e) => return Err(e),
        Ok(()) => {},
    }
    let mut v: usize = 0;
    while v < vols.len() && !str_eq(vols[v].id.as_str(), req.volume.as_str())
        invariant
            v <= vols.len(),
            first_volume(vols@, req.volume@, v as nat) is None,
        decreases vols.len() - v,
    {
        v = v + 1;
    }
    proof {
        lemma_first_volume(vols@, req.volume@, v as nat);
    }
    if v == vols.len() {
        proof {
            assert forall|i: int| 0 <= i < vols@.len() implies #[trigger] vols@[i].id@ != req.volume@ by {}
        }
        let head = cat("unknown volume '", req.volume.as_str());
        return Err(cat(head.as_str(), "' — run `maj volumes list`"));
    }
    proof {
        assert(first_volume(vols@, req.volume@, (v + 1) as nat) == Some(v as int));
        lemma_first_volume_sticks(vols@, req.volume@, (v + 1) as nat, vols@.len());
    }
    let vol = &vols[v];
    let mut notices: Vec<String> = Vec::new();
    if !vol.online {
        notices.push(offline_notice(vol.label.as_str()));
    }
    proof {
        assert(string_views(notices@) =~= if vol.online {
            Seq::<Seq<char>>::empty()
        } else {
            seq![offline_text(vol.label@)]
        });
    }
    let prefix_text = cat(req.path.as_str(), "/");
    let prefix: Option<&str> = if req.flatten && req.path.unicode_len() > 0 {
        Some(prefix_text.as_str())
    } else {
        None
    };
    let mut sel: Vec<InstanceRow> = Vec::new();
    let mut dirs: Vec<String> = Vec::new();
    let mut i: usize = 0;
    while i < insts.len()
        invariant
            i <= insts.len(),
            match prefix {
                Some(p) => p@ == req.path@ + "/"@ && req.path@.len() > 0,
                None => !req.flatten || req.path@.len() == 0,
            },
            sel@ == selected(insts@.subrange(0, i as int), *req),
            strictly_sorted(dirs@),
            key_set(dirs@) == holding_folders(sel@),
        decreases insts.len() - i,
    {
        let r = &insts[i];
        proof {
            assert(insts@.subrange(0, i + 1).drop_last() =~= insts@.subrange(0, i as int));
            assert(insts@.subrange(0, i + 1).last() == *r);
        }
        let kind_ok = match &req.kind {
            None => true,
            Some(k) => str_eq(r.kind.as_str(), k.as_str()),
        };
        if str_eq(r.volume.as_str(), req.volume.as_str()) && in_scope(r.path.as_str(), req.path.as_str(), req.flatten, prefix)
            && kind_ok {
            let ghost before = sel@;
            sel.push(copy_instance(r));
            let d = parent_dir(r.path.as_str());
            insert_key(&mut dirs, d.as_str());
            proof {
                assert forall|x: Seq<char>| holding_folders(sel@).contains(x) <==> holding_folders(before).insert(
                    d@,
                ).contains(x) by {
                    if holding_folders(sel@).contains(x) {
                        let j = choose|j: int| 0 <= j < sel@.len() && dir_part((#[trigger] sel@[j]).path@) == x;
                        if j < before.len() {
                            assert(sel@[j] == before[j]);
                        }
                    }
                    if holding_folders(before).contains(x) {
                        let j = choose|j: int| 0 <= j < before.len() && dir_part((#[trigger] before[j]).path@) == x;
                        assert(sel@[j] == before[j]);
                    }
                    if x == d@ {
                        assert(dir_part(sel@[before.len() as int].path@) == x);
                    }
                }
                assert(holding_folders(sel@) =~= holding_folders(before).insert(d@));
            }
        }
        i = i + 1;
    }
    assert(insts@.subrange(0, insts.len() as int) =~= insts@);
    proof {
        lemma_key_set_len(dirs@);
    }
    let matches = dedupe_by_asset(&sel);
    Ok(BrowseScope { label: vol.label.clone(), notices, matches, folder_count: dirs.len() as u64 })
}


/// A cataloged asset's id and display name, as its summary gives them.
#[derive(Debug)]
pub struct SummaryKey {
    pub asset: String,
    pub name: String,
}

/// How a listing is ordered.
#[derive(Debug, Clone, Copy, PartialEq, Eq)]
pub enum SortKey {
    /// Newest modification time first.
    Captured,
    /// Name ascending.
    Name,
    /// Largest first.
    Size,
}

pub open spec fn sort_key_of(sort: Option<String>) -> SortKey {
    match sort {
        Some(s) => if s@ == "name"@ {
            SortKey::Name
        } else if s@ == "size"@ {
            SortKey::Size
        } else {
            SortKey::Captured
        },
        None => SortKey::Captured,
    }
}

/// A page of a listing: how many rows there are before pagination, the
/// page's rows, each as the index of its match and of its asset's
/// summary, and the notices gathered.
#[derive(Debug)]
pub struct BrowsePage {
    pub count: u64,
    pub folder_count: u64,
    pub rows: Vec<(usize, usize)>,
    pub notices: Vec<String>,
}

/// The first summary of asset `a` among the first `n`.
pub open spec fn first_summary(sums: Seq<SummaryKey>, a: Seq<char>, n: nat) -> Option<int>
    decreases n,
{
    if n == 0 {
        None
    } else {
        match first_summary(sums, a, (n - 1) as nat) {
            Some(i) => Some(i),
            None => if sums[n - 1].asset@ == a {
                Some(n - 1)
            } else {
                None
            },
        }
    }
}

/// The rows the first `n` matches yield: a match joined with its asset's
/// summary; a match with none yields no row.
pub open spec fn joined_rows(ms: Seq<InstanceRow>, sums: Seq<SummaryKey>, n: nat) -> Seq<(usize, usize)>
    decreases n,
{
    if n == 0 {
        Seq::empty()
    } else {
        let rest = joined_rows(ms, sums, (n - 1) as nat);
        match first_summary(sums, ms[n - 1].asset@, sums.len()) {
            Some(s) => rest.push(((n - 1) as usize, s as usize)),
            None => rest,
        }
    }
}

pub open spec fn missing_text(a: Seq<char>) -> Seq<char> {
    "browse: no catalog summary for asset "@ + a + " — dropped from results"@
}

/// The notices the first `n` matches with no summary earn.
pub open spec fn missing_notes(ms: Seq<InstanceRow>, sums: Seq<SummaryKey>, n: nat) -> Seq<Seq<char>>
    decreases n,
{
    if n == 0 {
        Seq::empty()
    } else {
        let rest = missing_notes(ms, sums, (n - 1) as nat);
        if first_summary(sums, ms[n - 1].asset@, sums.len()) is None {
            rest.push(missing_text(ms[n - 1].asset@))
        } else {
            rest
        }
    }
}

/// Row `p` comes before row `q` in a listing sorted by `key`; ties go to
/// the smaller asset id.
pub open spec fn row_before(ms: Seq<InstanceRow>, sums: Seq<SummaryKey>, key: SortKey, p: (usize, usize), q: (
    usize,
    usize,
)) -> bool {
    let a = ms[p.0 as int];
    let b = ms[q.0 as int];
    let tie = seq_lt(a.asset@, b.asset@);
    match key {
        SortKey::Name => {
            let x = sums[p.1 as int].name@;
            let y = sums[q.1 as int].name@;
            seq_lt(x, y) || (x == y && tie)
        },
        SortKey::Size => a.size > b.size || (a.size == b.size && tie),
        SortKey::Captured => a.mtime_ms > b.mtime_ms || (a.mtime_ms == b.mtime_ms && tie),
    }
}

proof fn lemma_row_before_asymmetric(ms: Seq<InstanceRow>, sums: Seq<SummaryKey>, key: SortKey, p: (usize, usize), q: (usize, usize))
    requires
        row_before(ms, sums, key, p, q),
    ensures
        !row_before(ms, sums, key, q, p),
{
    let a = ms[p.0 as int].asset@;
    let b = ms[q.0 as int].asset@;
    if seq_lt(a, b) {
        lemma_seq_lt_asymmetric(a, b);
    }
    if key == SortKey::Name {
        let x = sums[p.1 as int].name@;
        let y = sums[q.1 as int].name@;
        if seq_lt(x, y) {
            lemma_seq_lt_asymmetric(x, y);
            lemma_seq_lt_irreflexive(x);
        }
    }
}

proof fn lemma_row_before_transitive(
    ms: Seq<InstanceRow>,
    sums: Seq<SummaryKey>,
    key: SortKey,
    p: (usize, usize),
    q: (usize, usize),
    r: (usize, usize),
)
    requires
        row_before(ms, sums, key, p, q),
        row_before(ms, sums, key, q, r),
    ensures
        row_before(ms, sums, key, p, r),
{
    let a = ms[p.0 as int].asset@;
    let b = ms[q.0 as int].asset@;
    let c = ms[r.0 as int].asset@;
    if seq_lt(a, b) && seq_lt(b, c) {
        lemma_seq_lt_transitive(a, b, c);
    }
    if key == SortKey::Name {
        let x = sums[p.1 as int].name@;
        let y = sums[q.1 as int].name@;
        let z = sums[r.1 as int].name@;
        if seq_lt(x, y) && seq_lt(y, z) {
            lemma_seq_lt_transitive(x, y, z);
        }
    }
}

/// `order` ranks the rows: each row index once, no row placed after one
/// that comes after it.
pub open spec fn sorted_order(order: Seq<usize>, rows: Seq<(usize, usize)>, ms: Seq<InstanceRow>, sums: Seq<SummaryKey>, key: SortKey) -> bool {
    &&& order.len() == rows.len()
    &&& forall|i: int| 0 <= i < order.len() ==> (#[trigger] order[i]) < rows.len()
    &&& forall|i: int, j: int| 0 <= i < j < order.len() ==> (#[trigger] order[i]) != (#[trigger] order[j])
    &&& forall|i: int, j: int|
        0 <= i < j < order.len() ==> !row_before(ms, sums, key, rows[(#[trigger] order[j]) as int], rows[(#[trigger] order[i]) as int])
}

/// The page window `[lo, hi)` of `count` rows skipping `offset` and
/// taking at most `limit`.
pub open spec fn page_lo(count: nat, offset: nat) -> nat {
    if offset < count { offset } else { count }
}

pub open spec fn page_hi(count: nat, offset: nat, limit: nat) -> nat {
    if page_lo(count, offset) + limit < count { page_lo(count, offset) + limit } else { count }
}

fn first_summary_of(sums: &Vec<SummaryKey>, a: &str) -> (r: Option<usize>)
    ensures
        r matches Some(i) ==> i < sums.len(),
        match (r, first_summary(sums@, a@, sums@.len())) {
            (Some(x), Some(y)) => x == y,
            (None, None) => true,
            _ => false,
        },
{
    let mut i: usize = 0;
    while i < sums.len()
        invariant
            i <= sums.len(),
            first_summary(sums@, a@, i as nat) is None,
        decreases sums.len() - i,
    {
        if str_eq(sums[i].asset.as_str(), a) {
            proof {
                lemma_first_summary_sticks(sums@, a@, (i + 1) as nat, sums@.len());
            }
            return Some(i);
        }
        i = i + 1;
    }
    None
}

proof fn lemma_first_summary_sticks(sums: Seq<SummaryKey>, a: Seq<char>, k: nat, n: nat)
    requires
        k <= n,
        first_summary(sums, a, k) is Some,
    ensures
        first_summary(sums, a, n) == first_summary(sums, a, k),
    decreases n - k,
{
    if n > k {
        lemma_first_summary_sticks(sums, a, k, (n - 1) as nat);
    }
}

fn before_exec(ms: &Vec<InstanceRow>, sums: &Vec<SummaryKey>, key: SortKey, p: (usize, usize), q: (usize, usize)) -> (r: bool)
    requires
        p.0 < ms.len(),
        q.0 < ms.len(),
        p.1 < sums.len(),
        q.1 < sums.len(),
    ensures
        r == row_before(ms@, sums@, key, p, q),
{
    let a = &ms[p.0];
    let b = &ms[q.0];
    match key {
        SortKey::Name => {
            let x = sums[p.1].name.as_str();
            let y = sums[q.1].name.as_str();
            str_lt(x, y) || (str_eq(x, y) && str_lt(a.asset.as_str(), b.asset.as_str()))
        },
        SortKey::Size => a.size > b.size || (a.size == b.size && str_lt(a.asset.as_str(), b.asset.as_str())),
        SortKey::Captured => a.mtime_ms > b.mtime_ms || (a.mtime_ms == b.mtime_ms && str_lt(
            a.asset.as_str(),
            b.asset.as_str(),
        )),
    }
}

/// One page of a listing: the scope's matches joined with their assets'
/// summaries (a match with none is dropped with a notice), ordered by the
/// request's sort with ties on the asset id, then cut to the window
/// `offset`/`limit`. The notices are the scope's, then `sink`'s, then the
/// dropped matches'.
pub fn browse_page(req: &BrowseRequest, scope: BrowseScope, sums: &Vec<SummaryKey>, sink: Vec<String>) -> (pg: BrowsePage)
    ensures
        ({
            let ms = scope.matches@;
            let rows = joined_rows(ms, sums@, ms.len());
            let key = sort_key_of(req.sort);
            &&& pg.count == rows.len()
            &&& pg.folder_count == scope.folder_count
            &&& string_views(pg.notices@) == string_views(scope.notices@) + string_views(sink@) + missing_notes(
                ms,
                sums@,
                ms.len(),
            )
            &&& exists|order: Seq<usize>|
                sorted_order(order, rows, ms, sums@, key) && pg.rows@ == order.subrange(
                    page_lo(rows.len(), req.offset as nat) as int,
                    page_hi(rows.len(), req.offset as nat, req.limit as nat) as int,
                ).map_values(|x: usize| rows[x as int])
        }),
{
    let ms = &scope.matches;
    let key = match &req.sort {
        Some(s) => if str_eq(s.as_str(), "name") {
            SortKey::Name
        } else if str_eq(s.as_str(), "size") {
            SortKey::Size
        } else {
            SortKey::Captured
        },
        None => SortKey::Captured,
    };
    let mut rows: Vec<(usize, usize)> = Vec::new();
    let mut missing: Vec<String> = Vec::new();
    let mut i: usize = 0;
    while i < ms.len()
        invariant
            i <= ms.len(),
            rows@ == joined_rows(ms@, sums@, i as nat),
            string_views(missing@) == missing_notes(ms@, sums@, i as nat),
            forall|k: int| 0 <= k < rows.len() ==> (#[trigger] rows@[k]).0 < ms.len() && rows@[k].1 < sums.len(),
        decreases ms.len() - i,
    {
        match first_summary_of(sums, ms[i].asset.as_str()) {
            Some(sx) => {
                rows.push((i, sx));
            },
            None => {
                let head = cat("browse: no catalog summary for asset ", ms[i].asset.as_str());
                missing.push(cat(head.as_str(), " — dropped from results"));
            },
        }
        proof {
            assert(string_views(missing@) =~= missing_notes(ms@, sums@, (i + 1) as nat));
        }
        i = i + 1;
    }
    let n = rows.len();
    let mut order: Vec<usize> = Vec::new();
    let mut c: usize = 0;
    while c < n
        invariant
            c <= n,
            n == rows.len(),
            order.len() == c,
            forall|k: int| 0 <= k < rows.len() ==> (#[trigger] rows@[k]).0 < ms.len() && rows@[k].1 < sums.len(),
            forall|i: int| 0 <= i < order.len() ==> (#[trigger] order@[i]) < c,
            forall|i: int, j: int| 0 <= i < j < order.len() ==> (#[trigger] order@[i]) != (#[trigger] order@[j]),
            forall|i: int, j: int|
                0 <= i < j < order.len() ==> !row_before(ms@, sums@, key, rows@[(#[trigger] order@[j]) as int], rows@[(#[trigger] order@[i]) as int]),
        decreases n - c,
    {
        let mut k: usize = 0;
        while k < order.len() && !before_exec(ms, sums, key, rows[c], rows[order[k]])
            invariant
                k <= order.len(),
                c < n,
                n == rows.len(),
                forall|kk: int| 0 <= kk < rows.len() ==> (#[trigger] rows@[kk]).0 < ms.len() && rows@[kk].1 < sums.len(),
                forall|i: int| 0 <= i < order.len() ==> (#[trigger] order@[i]) < c,
                forall|i: int| 0 <= i < k ==> !row_before(ms@, sums@, key, rows@[c as int], rows@[(#[trigger] order@[i]) as int]),
            decreases order.len() - k,
        {
            k = k + 1;
        }
        let ghost before = order@;
        order.insert(k, c);
        proof {
            assert(order@ == before.insert(k as int, c));
            assert forall|i: int| 0 <= i < order.len() implies (#[trigger] order@[i]) < c + 1 by {
                if i < k {
                    assert(order@[i] == before[i]);
                } else if i > k {
                    assert(order@[i] == before[i - 1]);
                }
            }
            assert forall|i: int, j: int| 0 <= i < j < order.len() implies (#[trigger] order@[i]) != (#[trigger] order@[j]) by {
                if i < k && j == k {
                } else if i < k && j > k {
                    assert(order@[j] == before[j - 1]);
                } else if i == k && j > k {
                    assert(order@[j] == before[j - 1]);
                } else if i > k {
                    assert(order@[i] == before[i - 1]);
                    assert(order@[j] == before[j - 1]);
                }
            }
            let x = rows@[c as int];
            assert forall|i: int, j: int| 0 <= i < j < order.len() implies !row_before(
                ms@,
                sums@,
                key,
                rows@[(#[trigger] order@[j]) as int],
                rows@[(#[trigger] order@[i]) as int],
            ) by {
                if i < k && j == k {
                    assert(order@[i] == before[i]);
                } else if i < k && j > k {
                    assert(order@[i] == before[i]);
                    assert(order@[j] == before[j - 1]);
                } else if i == k && j > k {
                    assert(order@[j] == before[j - 1]);
                    // x comes before before[k], which nothing after it precedes
                    assert(row_before(ms@, sums@, key, x, rows@[before[k as int] as int]));
                    if row_before(ms@, sums@, key, rows@[before[j - 1] as int], x) {
                        lemma_row_before_transitive(ms@, sums@, key, rows@[before[j - 1] as int], x, rows@[before[k as int] as int]);
                        if j - 1 == k {
                            lemma_row_before_asymmetric(ms@, sums@, key, x, rows@[before[k as int] as int]);
                        }
                    }
                } else if i > k {
                    assert(order@[i] == before[i - 1]);
                    assert(order@[j] == before[j - 1]);
                }
            }
        }
        c = c + 1;
    }
    let lo: usize = if req.offset < n { req.offset } else { n };
    let hi: usize = if req.limit < n - lo { lo + req.limit } else { n };
    let mut page: Vec<(usize, usize)> = Vec::new();
    let mut p: usize = lo;
    while p < hi
        invariant
            lo <= p <= hi,
            hi <= n,
            n == rows.len(),
            order.len() == n,
            forall|i: int| 0 <= i < order.len() ==> (#[trigger] order@[i]) < n,
            page@ == order@.subrange(lo as int, p as int).map_values(|x: usize| rows@[x as int]),
        decreases hi - p,
    {
        page.push(rows[order[p]]);
        p = p + 1;
        proof {
            assert(page@ =~= order@.subrange(lo as int, p as int).map_values(|x: usize| rows@[x as int]));
        }
    }
    let BrowseScope { label: _, notices, matches: _, folder_count } = scope;
    let mut notices = notices;
    let ghost n0 = notices@;
    let ghost s0 = sink@;
    let mut sink = sink;
    notices.append(&mut sink);
    let ghost n1 = notices@;
    let ghost m0 = missing@;
    notices.append(&mut missing);
    proof {
        reveal_strlit("name");
        reveal_strlit("size");
        assert(string_views(notices@) =~= string_views(n0) + string_views(s0) + string_views(m0));
        assert(sorted_order(order@, rows@, ms@, sums@, key));
        assert(key == sort_key_of(req.sort));
        assert(lo == page_lo(n as nat, req.offset as nat));
        assert(hi == page_hi(n as nat, req.offset as nat, req.limit as nat));
    }
    BrowsePage { count: n as u64, folder_count, rows: page, notices }
}


/// The assets of `ms`.
pub open spec fn asset_set(ms: Seq<InstanceRow>) -> Set<Seq<char>> {
    Set::new(|a: Seq<char>| exists|i: int| 0 <= i < ms.len() && (#[trigger] ms[i]).asset@ == a)
}

proof fn lemma_slash_bounds_last(s: Seq<char>, i: int)
    requires
        0 <= i < s.len(),
        s[i] == '/',
    ensures
        last_slash(s) >= i,
    decreases s.len(),
{
    if s.last() != '/' {
        lemma_slash_bounds_last(s.drop_last(), i);
    }
}

proof fn lemma_strip_lead_plain(s: Seq<char>)
    requires
        s.len() == 0 || s[0] != '/',
    ensures
        strip_lead(s) == s,
{
}

/// For a path that does not start with `/`, lying in folder `f`'s subtree
/// is being under `f` for a flattened listing.
proof fn lemma_under_iff_scoped(p: Seq<char>, f: Seq<char>)
    requires
        p.len() == 0 || p[0] != '/',
    ensures
        lies_under(p, f) == scoped(p, f, true),
{
    reveal_strlit("/");
    if f.len() == 0 {
        assert(f == Seq::<char>::empty());
        return;
    }
    if scoped(p, f, true) {
        let l = f.len() as int;
        assert(p.subrange(0, l + 1) == f + "/"@);
        assert(p[l] == (f + "/"@)[l]);
        assert(p[l] == '/');
        lemma_slash_bounds_last(p, l);
        lemma_last_slash_bound(p);
        let ls = last_slash(p);
        let d = dir_part(p);
        assert(d == p.subrange(0, ls));
        assert(is_cut(d, l)) by {
            if l < ls {
                assert(d[l] == p[l]);
            }
        }
        assert(d.subrange(0, l) =~= f) by {
            assert forall|k: int| 0 <= k < l implies d.subrange(0, l)[k] == f[k] by {
                assert(p.subrange(0, l + 1)[k] == (f + "/"@)[k]);
            }
        }
        lemma_strip_lead_plain(d.subrange(0, l));
        let m = (folder_at(d, l), parent_at(d, l), child_at(d, l));
        assert(path_mark(p, m));
        assert(m.0 == f);
    }
    if lies_under(p, f) {
        let m = choose|m: (Seq<char>, Seq<char>, Seq<char>)| path_mark(p, m) && m.0 == f;
        let d = dir_part(p);
        let e = choose|e: int|
            is_cut(dir_part(p), e) && m == (
                folder_at(dir_part(p), e),
                parent_at(dir_part(p), e),
                child_at(dir_part(p), e),
            );
        lemma_last_slash_bound(p);
        let ls = last_slash(p);
        assert(d == p.subrange(0, ls));
        if e == 0 {
            assert(d.subrange(0, 0) =~= Seq::<char>::empty());
            assert(f.len() == 0);
        }
        assert(e > 0);
        assert(d.subrange(0, e)[0] == p[0]);
        lemma_strip_lead_plain(d.subrange(0, e));
        assert(f == d.subrange(0, e));
        assert(p[e] == '/') by {
            if e < ls {
                assert(d[e] == p[e]);
            }
        }
        assert(p.subrange(0, e + 1) =~= f + "/"@);
        assert(is_prefix(f + "/"@, p));
    }
}

proof fn lemma_assets_upto_push(pairs: Seq<(String, String)>, x: (String, String), f: Seq<char>)
    ensures
        assets_upto(pairs.push(x), pairs.len() + 1int, f) == if lies_under(x.1@, f) {
            assets_upto(pairs, pairs.len() as int, f).insert(x.0@)
        } else {
            assets_upto(pairs, pairs.len() as int, f)
        },
{
    let q = pairs.push(x);
    let n = pairs.len() as int;
    assert forall|a: Seq<char>| #[trigger] assets_upto(q, n + 1, f).contains(a) <==> (assets_upto(pairs, n, f).contains(a)
        || (lies_under(x.1@, f) && a == x.0@)) by {
        if assets_upto(q, n + 1, f).contains(a) {
            let j = choose|j: int| 0 <= j < n + 1 && #[trigger] q[j].0@ == a && lies_under(q[j].1@, f);
            if j < n {
                assert(q[j] == pairs[j]);
                assert(assets_upto(pairs, n, f).contains(a));
            }
        }
        if assets_upto(pairs, n, f).contains(a) {
            let j = choose|j: int| 0 <= j < n && #[trigger] pairs[j].0@ == a && lies_under(pairs[j].1@, f);
            assert(q[j] == pairs[j]);
            assert(q[j].0@ == a);
        }
        if lies_under(x.1@, f) && a == x.0@ {
            assert(q[n] == x);
            assert(q[n].0@ == a);
        }
    }
    if lies_under(x.1@, f) {
        assert(assets_upto(q, n + 1, f) =~= assets_upto(pairs, n, f).insert(x.0@));
    } else {
        assert(assets_upto(q, n + 1, f) =~= assets_upto(pairs, n, f));
    }
}

proof fn lemma_asset_set_push(ms: Seq<InstanceRow>, r: InstanceRow)
    ensures
        asset_set(ms.push(r)) == asset_set(ms).insert(r.asset@),
{
    let q = ms.push(r);
    assert forall|a: Seq<char>| #[trigger] asset_set(q).contains(a) <==> asset_set(ms).insert(r.asset@).contains(a) by {
        if asset_set(q).contains(a) {
            let j = choose|j: int| 0 <= j < q.len() && (#[trigger] q[j]).asset@ == a;
            if j < ms.len() {
                assert(q[j] == ms[j]);
                assert(asset_set(ms).contains(a));
            }
        }
        if asset_set(ms).contains(a) {
            let j = choose|j: int| 0 <= j < ms.len() && (#[trigger] ms[j]).asset@ == a;
            assert(q[j] == ms[j]);
        }
        if a == r.asset@ {
            assert(q[ms.len() as int] == r);
        }
    }
    assert(asset_set(q) =~= asset_set(ms).insert(r.asset@));
}

/// The folder tree and the folder listing agree: for relative instance
/// paths (none starting with `/`), the assets a folder's subtree count
/// covers are exactly the assets a flattened, unfiltered listing of that
/// folder selects on the same volume.
pub proof fn tree_and_list_agree(insts: Seq<InstanceRow>, req: BrowseRequest)
    requires
        req.flatten,
        req.kind is None,
        forall|i: int| 0 <= i < insts.len() ==> (#[trigger] insts[i]).path@.len() == 0 || insts[i].path@[0] != '/',
    ensures
        assets_upto(on_volume(insts, req.volume@), on_volume(insts, req.volume@).len() as int, req.path@) == asset_set(
            selected(insts, req),
        ),
    decreases insts.len(),
{
    let v = req.volume@;
    let f = req.path@;
    if insts.len() == 0 {
        assert(assets_upto(on_volume(insts, v), 0, f) =~= Set::<Seq<char>>::empty());
        assert(asset_set(selected(insts, req)) =~= Set::<Seq<char>>::empty());
        return;
    }
    let init = insts.drop_last();
    let r = insts.last();
    assert forall|i: int| 0 <= i < init.len() implies (#[trigger] init[i]).path@.len() == 0 || init[i].path@[0] != '/' by {
        assert(init[i] == insts[i]);
    }
    tree_and_list_agree(init, req);
    assert(insts[insts.len() - 1] == r);
    if r.volume@ == v {
        lemma_assets_upto_push(on_volume(init, v), (r.asset, r.path), f);
        lemma_under_iff_scoped(r.path@, f);
        if scoped(r.path@, f, true) {
            lemma_asset_set_push(selected(init, req), r);
        }
    }
}

/// A collapsed listing holds one row per distinct asset it was given.
pub proof fn one_row_per_asset(out: Seq<InstanceRow>, ms: Seq<InstanceRow>)
    requires
        representatives(out, ms),
    ensures
        out.len() == asset_set(ms).len(),
        asset_set(ms).finite(),
{
    let keys = out.map_values(|r: InstanceRow| r.asset);
    assert forall|i: int, j: int| 0 <= i < j < keys.len() implies seq_lt(#[trigger] keys[i]@, #[trigger] keys[j]@) by {
        assert(keys[i] == out[i].asset);
        assert(keys[j] == out[j].asset);
    }
    lemma_key_set_len(keys);
    assert forall|a: Seq<char>| #[trigger] key_set(keys).contains(a) <==> asset_set(ms).contains(a) by {
        if key_set(keys).contains(a) {
            let k = choose|k: int| 0 <= k < keys.len() && #[trigger] keys[k]@ == a;
            assert(one_of(ms, out[k]));
            let i = choose|i: int| 0 <= i < ms.len() && ms[i] == out[k];
            assert(ms[i].asset@ == a);
        }
        if asset_set(ms).contains(a) {
            let i = choose|i: int| 0 <= i < ms.len() && (#[trigger] ms[i]).asset@ == a;
            assert(represented(out, ms[i]));
            let k = choose|k: int| 0 <= k < out.len() && (#[trigger] out[k]).asset@ == ms[i].asset@ && !better(ms[i], out[k]);
            assert(keys[k]@ == a);
        }
    }
    assert(key_set(keys) =~= asset_set(ms));
}

} // verus!
