//! Enumeration of the regular files under a set of paths.
use vstd::prelude::*;

verus! {

/// A snapshot of what a path held when it was examined.
pub enum FsEntry {
    /// A regular file.
    File { path: String },
    /// A directory and what it held, in the order the listing gave.
    Dir { path: String, entries: Vec<FsEntry> },
    /// Anything else: a missing path, a link, a device.
    Other { path: String },
}

/// The file paths under `e`, depth first.
pub open spec fn entry_files(e: FsEntry) -> Seq<Seq<char>>
    decreases e, 0int,
{
    match e {
        FsEntry::File { path } => seq![path@],
        FsEntry::Dir { path, entries } => list_files(entries@, entries@.len() as int),
        FsEntry::Other { path } => seq![],
    }
}

/// The file paths under the first `n` entries of `es`, depth first.
pub open spec fn list_files(es: Seq<FsEntry>, n: int) -> Seq<Seq<char>>
    decreases es, n,
{
    if n <= 0 || n > es.len() {
        seq![]
    } else {
        list_files(es, n - 1) + entry_files(es[n - 1])
    }
}

/// The views of a list of paths.
pub open spec fn path_views(v: Seq<String>) -> Seq<Seq<char>> {
    v.map_values(|s: String| s@)
}

/// Whether `p` is the path of a regular file reached from `e` by following directories.
pub open spec fn reaches_file(e: FsEntry, p: Seq<char>) -> bool
    decreases e, 0int,
{
    match e {
        FsEntry::File { path } => path@ == p,
        FsEntry::Dir { path, entries } => list_reaches_file(entries@, entries@.len() as int, p),
        FsEntry::Other { path } => false,
    }
}

/// Whether `p` is a regular file reached from one of the first `n` entries of `es`.
pub open spec fn list_reaches_file(es: Seq<FsEntry>, n: int, p: Seq<char>) -> bool
    decreases es, n,
{
    if n <= 0 || n > es.len() {
        false
    } else {
        list_reaches_file(es, n - 1, p) || reaches_file(es[n - 1], p)
    }
}

/// Every path under `e`, its own first, whatever it names.
pub open spec fn entry_paths(e: FsEntry) -> Seq<Seq<char>>
    decreases e, 0int,
{
    match e {
        FsEntry::File { path } => seq![path@],
        FsEntry::Dir { path, entries } => seq![path@] + list_paths(entries@, entries@.len() as int),
        FsEntry::Other { path } => seq![path@],
    }
}

/// Every path under the first `n` entries of `es`.
pub open spec fn list_paths(es: Seq<FsEntry>, n: int) -> Seq<Seq<char>>
    decreases es, n,
{
    if n <= 0 || n > es.len() {
        seq![]
    } else {
        list_paths(es, n - 1) + entry_paths(es[n - 1])
    }
}

/// Whether `p` names a directory under `e`.
pub open spec fn reaches_dir(e: FsEntry, p: Seq<char>) -> bool
    decreases e, 0int,
{
    match e {
        FsEntry::File { path } => false,
        FsEntry::Dir { path, entries } => path@ == p || list_reaches_dir(
            entries@,
            entries@.len() as int,
            p,
        ),
        FsEntry::Other { path } => false,
    }
}

/// Whether `p` names a directory under the first `n` entries of `es`.
pub open spec fn list_reaches_dir(es: Seq<FsEntry>, n: int, p: Seq<char>) -> bool
    decreases es, n,
{
    if n <= 0 || n > es.len() {
        false
    } else {
        list_reaches_dir(es, n - 1, p) || reaches_dir(es[n - 1], p)
    }
}

proof fn lemma_no_dup_concat(a: Seq<Seq<char>>, b: Seq<Seq<char>>)
    ensures
        (a + b).no_duplicates() <==> (a.no_duplicates() && b.no_duplicates() && forall|x|
            a.contains(x) ==> !b.contains(x)),
{
    let c = a + b;
    if c.no_duplicates() {
        assert forall|i: int, j: int| 0 <= i < a.len() && 0 <= j < a.len() && i != j implies a[i]
            != a[j] by {
            assert(c[i] == a[i] && c[j] == a[j]);
        }
        assert forall|i: int, j: int| 0 <= i < b.len() && 0 <= j < b.len() && i != j implies b[i]
            != b[j] by {
            assert(c[a.len() + i] == b[i] && c[a.len() + j] == b[j]);
        }
        assert forall|x| a.contains(x) implies !b.contains(x) by {
            if b.contains(x) {
                let i = choose|i: int| 0 <= i < a.len() && a[i] == x;
                let j = choose|j: int| 0 <= j < b.len() && b[j] == x;
                assert(c[i] == c[a.len() + j]);
            }
        }
    }
    if a.no_duplicates() && b.no_duplicates() && forall|x| a.contains(x) ==> !b.contains(x) {
        assert forall|i: int, j: int| 0 <= i < c.len() && 0 <= j < c.len() && i != j implies c[i]
            != c[j] by {
            if i < a.len() && j >= a.len() {
                assert(a.contains(c[i]));
                assert(b[j - a.len()] == c[j]);
            } else if j < a.len() && i >= a.len() {
                assert(a.contains(c[j]));
                assert(b[i - a.len()] == c[i]);
            } else if i >= a.len() && j >= a.len() {
                assert(b[i - a.len()] == c[i] && b[j - a.len()] == c[j]);
            }
        }
    }
}

/// The file list of an entry: a path in it is a reached file, it is one of the
/// entry's paths, and it holds no path twice where the entry's paths are distinct.
proof fn lemma_entry_files(e: FsEntry)
    ensures
        forall|p| entry_files(e).contains(p) <==> reaches_file(e, p),
        forall|p| entry_files(e).contains(p) ==> entry_paths(e).contains(p),
        forall|p| reaches_dir(e, p) ==> entry_paths(e).contains(p),
        entry_paths(e).no_duplicates() ==> entry_files(e).no_duplicates(),
        entry_paths(e).no_duplicates() ==> forall|p| reaches_dir(e, p) ==> !reaches_file(e, p),
    decreases e, 0int,
{
    match e {
        FsEntry::File { path } => {
            assert(entry_files(e) == seq![path@]);
            assert(entry_paths(e) == seq![path@]);
            assert forall|p| entry_files(e).contains(p) <==> reaches_file(e, p) by {
                assert(entry_files(e)[0] == path@);
                assert(reaches_file(e, p) == (path@ == p));
                if entry_files(e).contains(p) {
                    let k = choose|k: int| 0 <= k < entry_files(e).len() && entry_files(e)[k] == p;
                    assert(k == 0);
                }
            }
        },
        FsEntry::Dir { path, entries } => {
            let n = entries@.len() as int;
            lemma_list_files(entries@, n);
            let rest = list_paths(entries@, n);
            lemma_no_dup_concat(seq![path@], rest);
            assert(entry_paths(e) == seq![path@] + rest);
            assert(entry_files(e) == list_files(entries@, n));
            assert forall|p| entry_files(e).contains(p) <==> reaches_file(e, p) by {
                assert(reaches_file(e, p) == list_reaches_file(entries@, n, p));
            }
            assert forall|p| entry_files(e).contains(p) implies entry_paths(e).contains(p) by {
                let k = choose|k: int| 0 <= k < rest.len() && rest[k] == p;
                assert(entry_paths(e)[k + 1] == p);
            }
            assert forall|p| reaches_dir(e, p) implies entry_paths(e).contains(p) by {
                assert(reaches_dir(e, p) == (path@ == p || list_reaches_dir(entries@, n, p)));
                if path@ == p {
                    assert(entry_paths(e)[0] == p);
                } else {
                    let k = choose|k: int| 0 <= k < rest.len() && rest[k] == p;
                    assert(entry_paths(e)[k + 1] == p);
                }
            }
            if entry_paths(e).no_duplicates() {
                assert forall|p| reaches_dir(e, p) implies !reaches_file(e, p) by {
                    assert(reaches_dir(e, p) == (path@ == p || list_reaches_dir(entries@, n, p)));
                    assert(reaches_file(e, p) == list_reaches_file(entries@, n, p));
                    if path@ == p && reaches_file(e, p) {
                        assert(seq![path@][0] == p);
                        assert(rest.contains(p));
                    }
                }
            }
        },
        FsEntry::Other { path } => {
            assert(entry_files(e) =~= seq![]);
            assert forall|p| !reaches_file(e, p) && !reaches_dir(e, p) by {}
        },
    }
}

/// The same for the first `n` entries of a list.
proof fn lemma_list_files(es: Seq<FsEntry>, n: int)
    ensures
        forall|p| list_files(es, n).contains(p) <==> list_reaches_file(es, n, p),
        forall|p| list_files(es, n).contains(p) ==> list_paths(es, n).contains(p),
        forall|p| list_reaches_dir(es, n, p) ==> list_paths(es, n).contains(p),
        list_paths(es, n).no_duplicates() ==> list_files(es, n).no_duplicates(),
        list_paths(es, n).no_duplicates() ==> forall|p|
            list_reaches_dir(es, n, p) ==> !list_reaches_file(es, n, p),
    decreases es, n,
{
    if n <= 0 || n > es.len() {
    } else {
        lemma_list_files(es, n - 1);
        lemma_entry_files(es[n - 1]);
        let fa = list_files(es, n - 1);
        let fb = entry_files(es[n - 1]);
        let pa = list_paths(es, n - 1);
        let pb = entry_paths(es[n - 1]);
        lemma_no_dup_concat(fa, fb);
        lemma_no_dup_concat(pa, pb);
        assert(list_files(es, n) == fa + fb);
        assert(list_paths(es, n) == pa + pb);
        assert forall|p| list_files(es, n).contains(p) <==> list_reaches_file(es, n, p) by {
            assert(list_reaches_file(es, n, p) == (list_reaches_file(es, n - 1, p) || reaches_file(
                es[n - 1],
                p,
            )));
            if fa.contains(p) {
                let k = choose|k: int| 0 <= k < fa.len() && fa[k] == p;
                assert((fa + fb)[k] == p);
            }
            if fb.contains(p) {
                let k = choose|k: int| 0 <= k < fb.len() && fb[k] == p;
                assert((fa + fb)[fa.len() + k] == p);
            }
        }
        assert forall|p| list_files(es, n).contains(p) implies list_paths(es, n).contains(p) by {
            if fa.contains(p) {
                let k = choose|k: int| 0 <= k < pa.len() && pa[k] == p;
                assert((pa + pb)[k] == p);
            } else {
                assert(fb.contains(p)) by {
                    let k = choose|k: int| 0 <= k < (fa + fb).len() && (fa + fb)[k] == p;
                    assert(fb[k - fa.len()] == p);
                }
                let k = choose|k: int| 0 <= k < pb.len() && pb[k] == p;
                assert((pa + pb)[pa.len() + k] == p);
            }
        }
        assert forall|p| list_reaches_dir(es, n, p) implies list_paths(es, n).contains(p) by {
            assert(list_reaches_dir(es, n, p) == (list_reaches_dir(es, n - 1, p) || reaches_dir(
                es[n - 1],
                p,
            )));
            if list_reaches_dir(es, n - 1, p) {
                let k = choose|k: int| 0 <= k < pa.len() && pa[k] == p;
                assert((pa + pb)[k] == p);
            } else {
                let k = choose|k: int| 0 <= k < pb.len() && pb[k] == p;
                assert((pa + pb)[pa.len() + k] == p);
            }
        }
        if list_paths(es, n).no_duplicates() {
            assert forall|x| fa.contains(x) implies !fb.contains(x) by {
                assert(pa.contains(x));
                if fb.contains(x) {
                    assert(pb.contains(x));
                }
            }
            assert forall|p| list_reaches_dir(es, n, p) implies !list_reaches_file(es, n, p) by {
                assert(list_reaches_dir(es, n, p) == (list_reaches_dir(es, n - 1, p) || reaches_dir(
                    es[n - 1],
                    p,
                )));
                assert(list_reaches_file(es, n, p) == (list_reaches_file(es, n - 1, p)
                    || reaches_file(es[n - 1], p)));
                if list_reaches_dir(es, n - 1, p) && reaches_file(es[n - 1], p) {
                    assert(pa.contains(p));
                    assert(fb.contains(p));
                    assert(pb.contains(p));
                }
                if reaches_dir(es[n - 1], p) && list_reaches_file(es, n - 1, p) {
                    assert(pb.contains(p));
                    assert(fa.contains(p));
                    assert(pa.contains(p));
                }
            }
        }
    }
}

/// `acc` followed by the paths of `s` that are not already in it, each the
/// first time it comes.
pub open spec fn add_new(acc: Seq<Seq<char>>, s: Seq<Seq<char>>) -> Seq<Seq<char>>
    decreases s.len(),
{
    if s.len() == 0 {
        acc
    } else {
        let a = add_new(acc, s.drop_last());
        if a.contains(s.last()) {
            a
        } else {
            a.push(s.last())
        }
    }
}

/// The paths of `s` without repeats, in the order of their first occurrence.
pub open spec fn first_occurrences(s: Seq<Seq<char>>) -> Seq<Seq<char>> {
    add_new(seq![], s)
}

/// Adding two runs in turn adds their concatenation.
proof fn lemma_add_new_concat(acc: Seq<Seq<char>>, a: Seq<Seq<char>>, b: Seq<Seq<char>>)
    ensures
        add_new(add_new(acc, a), b) == add_new(acc, a + b),
    decreases b.len(),
{
    if b.len() == 0 {
        assert(a + b =~= a);
    } else {
        lemma_add_new_concat(acc, a, b.drop_last());
        assert((a + b).drop_last() =~= a + b.drop_last());
        assert((a + b).last() == b.last());
    }
}

/// What `add_new` holds, and that it repeats nothing where `acc` repeats nothing.
proof fn lemma_add_new(acc: Seq<Seq<char>>, s: Seq<Seq<char>>)
    ensures
        forall|p| add_new(acc, s).contains(p) <==> (acc.contains(p) || s.contains(p)),
        acc.no_duplicates() ==> add_new(acc, s).no_duplicates(),
    decreases s.len(),
{
    if s.len() > 0 {
        let t = s.drop_last();
        let x = s.last();
        lemma_add_new(acc, t);
        let a = add_new(acc, t);
        assert forall|p| add_new(acc, s).contains(p) <==> (acc.contains(p) || s.contains(p)) by {
            if t.contains(p) {
                let k = choose|k: int| 0 <= k < t.len() && t[k] == p;
                assert(s[k] == p);
            }
            if s.contains(p) && p != x {
                let k = choose|k: int| 0 <= k < s.len() && s[k] == p;
                assert(t[k] == p);
            }
            if !a.contains(x) {
                if a.push(x).contains(p) && p != x {
                    let k = choose|k: int| 0 <= k < a.push(x).len() && a.push(x)[k] == p;
                    assert(a[k] == p);
                }
                if a.contains(p) {
                    let k = choose|k: int| 0 <= k < a.len() && a[k] == p;
                    assert(a.push(x)[k] == p);
                }
                assert(a.push(x)[a.len() as int] == x);
            }
        }
        if acc.no_duplicates() && !a.contains(x) {
            assert forall|i: int, j: int|
                0 <= i < a.push(x).len() && 0 <= j < a.push(x).len() && i != j implies a.push(x)[i]
                != a.push(x)[j] by {
                if i == a.len() {
                    assert(a[j] == a.push(x)[j]);
                } else if j == a.len() {
                    assert(a[i] == a.push(x)[i]);
                }
            }
        }
    }
}

/// What `collect` returns holds each regular file reached from the roots by
/// following directories, once, and nothing else; where no path occurs twice
/// in the snapshot, no directory path is among them.
pub proof fn lemma_collect_exact(roots: Seq<FsEntry>)
    ensures
        forall|p|
            first_occurrences(list_files(roots, roots.len() as int)).contains(p)
                <==> list_reaches_file(roots, roots.len() as int, p),
        first_occurrences(list_files(roots, roots.len() as int)).no_duplicates(),
        list_paths(roots, roots.len() as int).no_duplicates() ==> forall|p|
            list_reaches_dir(roots, roots.len() as int, p) ==> !first_occurrences(
                list_files(roots, roots.len() as int),
            ).contains(p),
{
    lemma_list_files(roots, roots.len() as int);
    lemma_add_new(seq![], list_files(roots, roots.len() as int));
}

/// Whether `v` already holds the path `p`.
fn holds_path(v: &Vec<String>, p: &String) -> (r: bool)
    ensures
        r == path_views(v@).contains(p@),
{
    let mut i: usize = 0;
    while i < v.len()
        invariant
            i <= v@.len(),
            forall|j: int| 0 <= j < i ==> v@[j]@ != p@,
        decreases v@.len() - i,
    {
        if v[i] == *p {
            proof {
                assert(path_views(v@)[i as int] == p@);
            }
            return true;
        }
        i = i + 1;
    }
    proof {
        if path_views(v@).contains(p@) {
            let k = choose|k: int| 0 <= k < v@.len() && path_views(v@)[k] == p@;
            assert(v@[k]@ == p@);
        }
    }
    false
}

fn collect_entry(e: &FsEntry, out: &mut Vec<String>)
    ensures
        path_views(final(out)@) == add_new(path_views(old(out)@), entry_files(*e)),
    decreases *e, 0int,
{
    match e {
        FsEntry::File { path } => {
            let ghost before = path_views(out@);
            proof {
                assert(seq![path@].drop_last() =~= Seq::<Seq<char>>::empty());
                assert(add_new(before, Seq::<Seq<char>>::empty()) == before);
                assert(seq![path@].last() == path@);
                assert(entry_files(*e) == seq![path@]);
                assert(add_new(before, seq![path@]) == if before.contains(path@) {
                    before
                } else {
                    before.push(path@)
                });
            }
            if !holds_path(out, path) {
                out.push(path.clone());
                proof {
                    assert(path_views(out@) =~= before.push(path@));
                }
            }
        },
        FsEntry::Dir { path, entries } => {
            collect_list(entries, out);
        },
        FsEntry::Other { path } => {},
    }
}

fn collect_list(es: &Vec<FsEntry>, out: &mut Vec<String>)
    ensures
        path_views(final(out)@) == add_new(
            path_views(old(out)@),
            list_files(es@, es@.len() as int),
        ),
    decreases es, 1int,
{
    let ghost start = path_views(out@);
    let mut i: usize = 0;
    while i < es.len()
        invariant
            i <= es@.len(),
            path_views(out@) == add_new(start, list_files(es@, i as int)),
        decreases es@.len() - i,
    {
        collect_entry(&es[i], out);
        proof {
            lemma_add_new_concat(start, list_files(es@, i as int), entry_files(es@[i as int]));
        }
        i = i + 1;
    }
}

/// The regular files under `roots`, each root's in turn, depth first, each
/// path once, where it first comes.
pub fn collect(roots: &Vec<FsEntry>) -> (r: Vec<String>)
    ensures
        path_views(r@) == first_occurrences(list_files(roots@, roots@.len() as int)),
        path_views(r@).no_duplicates(),
        forall|p| path_views(r@).contains(p) <==> list_reaches_file(roots@, roots@.len() as int, p),
{
    let mut r: Vec<String> = Vec::new();
    proof {
        assert(path_views(r@) =~= seq![]);
    }
    collect_list(roots, &mut r);
    proof {
        lemma_collect_exact(roots@);
    }
    r
}

} // verus!
