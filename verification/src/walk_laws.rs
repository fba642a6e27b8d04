use vstd::prelude::*;
use crate::file_collector::after_entry;

verus! {

// A directory tree is given by its listings: `fs[d]` holds the entries of directory `d`,
// each as its path, whether it is a file and whether it is a directory, in the order the
// caller hands them to `add_entry`. A step of the walk is `(true, p)` for handing out the
// file `p` and `(false, d)` for listing the directory `d`.

/// The files and directories waiting after the collector takes the entries `es` one by one.
pub open spec fn after_listing(
    files: Seq<Seq<char>>,
    dirs: Seq<Seq<char>>,
    es: Seq<(Seq<char>, bool, bool)>,
    recursive: bool,
) -> (Seq<Seq<char>>, Seq<Seq<char>>)
    decreases es.len(),
{
    if es.len() == 0 {
        (files, dirs)
    } else {
        let s = after_listing(files, dirs, es.drop_last(), recursive);
        after_entry(s.0, s.1, es.last(), recursive)
    }
}

/// The files among the entries `es`, in listing order.
pub open spec fn listed_files(es: Seq<(Seq<char>, bool, bool)>) -> Seq<Seq<char>>
    decreases es.len(),
{
    if es.len() == 0 {
        seq![]
    } else {
        let e = es.last();
        listed_files(es.drop_last()) + if e.1 { seq![e.0] } else { seq![] }
    }
}

/// The directories among the entries `es` that a walk visits (none unless it is
/// recursive), the one listed last first.
pub open spec fn listed_dirs(es: Seq<(Seq<char>, bool, bool)>, recursive: bool) -> Seq<Seq<char>>
    decreases es.len(),
{
    if es.len() == 0 {
        seq![]
    } else {
        let e = es.last();
        if !e.1 && e.2 && recursive {
            seq![e.0] + listed_dirs(es.drop_last(), recursive)
        } else {
            listed_dirs(es.drop_last(), recursive)
        }
    }
}

/// Handing out each of `files` in turn.
pub open spec fn yields(files: Seq<Seq<char>>) -> Seq<(bool, Seq<char>)> {
    Seq::new(files.len(), |i: int| (true, files[i]))
}

/// The steps of a walk of directory `d`, looking at most `h` levels down: list `d`, hand
/// out its files, then walk each of its subdirectories in turn.
pub open spec fn walk(
    fs: Map<Seq<char>, Seq<(Seq<char>, bool, bool)>>,
    recursive: bool,
    d: Seq<char>,
    h: nat,
) -> Seq<(bool, Seq<char>)>
    decreases h, 0int,
{
    if h == 0 {
        seq![]
    } else {
        seq![(false, d)] + yields(listed_files(fs[d])) + walk_all(
            fs,
            recursive,
            listed_dirs(fs[d], recursive),
            (h - 1) as nat,
        )
    }
}

/// The walks of the directories `ds`, one after the other.
pub open spec fn walk_all(
    fs: Map<Seq<char>, Seq<(Seq<char>, bool, bool)>>,
    recursive: bool,
    ds: Seq<Seq<char>>,
    h: nat,
) -> Seq<(bool, Seq<char>)>
    decreases h, ds.len() + 1,
{
    if ds.len() == 0 {
        seq![]
    } else {
        walk(fs, recursive, ds[0], h) + walk_all(fs, recursive, ds.drop_first(), h)
    }
}

/// Directory `d` is listed in `fs`, and so is every directory a walk of it reaches,
/// within `h` levels.
pub open spec fn within_depth(
    fs: Map<Seq<char>, Seq<(Seq<char>, bool, bool)>>,
    recursive: bool,
    d: Seq<char>,
    h: nat,
) -> bool
    decreases h, 0int,
{
    if h == 0 {
        false
    } else {
        fs.dom().contains(d) && all_within_depth(
            fs,
            recursive,
            listed_dirs(fs[d], recursive),
            (h - 1) as nat,
        )
    }
}

/// Every directory of `ds` is within depth `h`.
pub open spec fn all_within_depth(
    fs: Map<Seq<char>, Seq<(Seq<char>, bool, bool)>>,
    recursive: bool,
    ds: Seq<Seq<char>>,
    h: nat,
) -> bool
    decreases h, ds.len() + 1,
{
    if ds.len() == 0 {
        true
    } else {
        within_depth(fs, recursive, ds[0], h) && all_within_depth(fs, recursive, ds.drop_first(), h)
    }
}

/// The steps left to a collector holding `files` and `dirs`.
pub open spec fn steps_left(
    fs: Map<Seq<char>, Seq<(Seq<char>, bool, bool)>>,
    recursive: bool,
    files: Seq<Seq<char>>,
    dirs: Seq<Seq<char>>,
    h: nat,
) -> Seq<(bool, Seq<char>)> {
    yields(files) + walk_all(fs, recursive, dirs, h)
}

proof fn lemma_after_listing(
    files: Seq<Seq<char>>,
    dirs: Seq<Seq<char>>,
    es: Seq<(Seq<char>, bool, bool)>,
    recursive: bool,
)
    ensures
        after_listing(files, dirs, es, recursive) == (
            files + listed_files(es),
            listed_dirs(es, recursive) + dirs,
        ),
    decreases es.len(),
{
    if es.len() == 0 {
        assert(files + listed_files(es) =~= files);
        assert(listed_dirs(es, recursive) + dirs =~= dirs);
    } else {
        lemma_after_listing(files, dirs, es.drop_last(), recursive);
        let e = es.last();
        let lf = listed_files(es.drop_last());
        let ld = listed_dirs(es.drop_last(), recursive);
        if e.1 {
            assert((files + lf).push(e.0) =~= files + (lf + seq![e.0]));
        } else {
            assert(files + lf =~= files + (lf + seq![]));
        }
        if !e.1 && e.2 && recursive {
            assert(seq![e.0] + (ld + dirs) =~= (seq![e.0] + ld) + dirs);
        }
    }
}

proof fn lemma_walk_all_append(
    fs: Map<Seq<char>, Seq<(Seq<char>, bool, bool)>>,
    recursive: bool,
    a: Seq<Seq<char>>,
    b: Seq<Seq<char>>,
    h: nat,
)
    ensures
        walk_all(fs, recursive, a + b, h) == walk_all(fs, recursive, a, h) + walk_all(
            fs,
            recursive,
            b,
            h,
        ),
    decreases a.len(),
{
    if a.len() == 0 {
        assert(a + b =~= b);
        assert(walk_all(fs, recursive, b, h) =~= seq![] + walk_all(fs, recursive, b, h));
    } else {
        assert((a + b).drop_first() =~= a.drop_first() + b);
        assert((a + b)[0] == a[0]);
        lemma_walk_all_append(fs, recursive, a.drop_first(), b, h);
        let w = walk(fs, recursive, a[0], h);
        let x = walk_all(fs, recursive, a.drop_first(), h);
        let y = walk_all(fs, recursive, b, h);
        assert(w + (x + y) =~= (w + x) + y);
    }
}

proof fn lemma_within_depth_deeper(
    fs: Map<Seq<char>, Seq<(Seq<char>, bool, bool)>>,
    recursive: bool,
    d: Seq<char>,
    h: nat,
)
    requires
        within_depth(fs, recursive, d, h),
    ensures
        within_depth(fs, recursive, d, h + 1),
    decreases h, 0int,
{
    lemma_all_within_depth_deeper(fs, recursive, listed_dirs(fs[d], recursive), (h - 1) as nat);
    assert(((h - 1) as nat) + 1 == h);
}

proof fn lemma_all_within_depth_deeper(
    fs: Map<Seq<char>, Seq<(Seq<char>, bool, bool)>>,
    recursive: bool,
    ds: Seq<Seq<char>>,
    h: nat,
)
    requires
        all_within_depth(fs, recursive, ds, h),
    ensures
        all_within_depth(fs, recursive, ds, h + 1),
    decreases h, ds.len() + 1,
{
    if ds.len() > 0 {
        lemma_within_depth_deeper(fs, recursive, ds[0], h);
        lemma_all_within_depth_deeper(fs, recursive, ds.drop_first(), h);
    }
}

proof fn lemma_all_within_depth_append(
    fs: Map<Seq<char>, Seq<(Seq<char>, bool, bool)>>,
    recursive: bool,
    a: Seq<Seq<char>>,
    b: Seq<Seq<char>>,
    h: nat,
)
    requires
        all_within_depth(fs, recursive, a, h),
        all_within_depth(fs, recursive, b, h),
    ensures
        all_within_depth(fs, recursive, a + b, h),
    decreases a.len(),
{
    if a.len() == 0 {
        assert(a + b =~= b);
    } else {
        assert((a + b).drop_first() =~= a.drop_first() + b);
        assert((a + b)[0] == a[0]);
        lemma_all_within_depth_append(fs, recursive, a.drop_first(), b, h);
    }
}

proof fn lemma_walk_deeper(
    fs: Map<Seq<char>, Seq<(Seq<char>, bool, bool)>>,
    recursive: bool,
    d: Seq<char>,
    h: nat,
)
    requires
        within_depth(fs, recursive, d, h),
    ensures
        walk(fs, recursive, d, h) == walk(fs, recursive, d, h + 1),
    decreases h, 0int,
{
    let ds = listed_dirs(fs[d], recursive);
    lemma_walk_all_deeper(fs, recursive, ds, (h - 1) as nat);
    assert(((h - 1) as nat) + 1 == h);
}

proof fn lemma_walk_all_deeper(
    fs: Map<Seq<char>, Seq<(Seq<char>, bool, bool)>>,
    recursive: bool,
    ds: Seq<Seq<char>>,
    h: nat,
)
    requires
        all_within_depth(fs, recursive, ds, h),
    ensures
        walk_all(fs, recursive, ds, h) == walk_all(fs, recursive, ds, h + 1),
    decreases h, ds.len() + 1,
{
    if ds.len() > 0 {
        lemma_walk_deeper(fs, recursive, ds[0], h);
        lemma_walk_all_deeper(fs, recursive, ds.drop_first(), h);
    }
}

/// A fresh collector for `base` (nothing waiting, `base` the only directory to visit) has
/// the whole walk of `base` ahead of it: list `base`, hand out the files of `base`, then
/// walk its subdirectories, each to the end before the next.
pub proof fn lemma_walk_starts(
    fs: Map<Seq<char>, Seq<(Seq<char>, bool, bool)>>,
    recursive: bool,
    base: Seq<char>,
    h: nat,
)
    ensures
        steps_left(fs, recursive, seq![], seq![base], h) == walk(fs, recursive, base, h),
{
    let w = walk(fs, recursive, base, h);
    let one = seq![base];
    assert(one[0] == base);
    assert(one.drop_first() =~= Seq::<Seq<char>>::empty());
    assert(walk_all(fs, recursive, one.drop_first(), h) =~= Seq::<(bool, Seq<char>)>::empty());
    assert(walk_all(fs, recursive, one, h) =~= w);
    assert(yields(seq![]) =~= Seq::<(bool, Seq<char>)>::empty());
    assert(steps_left(fs, recursive, seq![], one, h) =~= w);
}

/// Each step of the collector is the next step of the walk ahead of it, and leaves the
/// rest of that walk ahead: with files waiting, `next_action` hands out the first; with
/// none but a directory to visit, it lists that directory, and once its entries are taken
/// the rest of the walk is ahead; with neither, the walk is over and `next_action` is done.
pub proof fn lemma_walk_step(
    fs: Map<Seq<char>, Seq<(Seq<char>, bool, bool)>>,
    recursive: bool,
    files: Seq<Seq<char>>,
    dirs: Seq<Seq<char>>,
    h: nat,
)
    requires
        all_within_depth(fs, recursive, dirs, h),
    ensures
        files.len() > 0 ==> {
            let ahead = steps_left(fs, recursive, files, dirs, h);
            &&& ahead.len() > 0
            &&& ahead[0] == (true, files[0])
            &&& steps_left(fs, recursive, files.drop_first(), dirs, h) == ahead.drop_first()
        },
        files.len() == 0 && dirs.len() > 0 ==> {
            let ahead = steps_left(fs, recursive, files, dirs, h);
            let s = after_listing(files, dirs.drop_first(), fs[dirs[0]], recursive);
            &&& ahead.len() > 0
            &&& ahead[0] == (false, dirs[0])
            &&& steps_left(fs, recursive, s.0, s.1, h) == ahead.drop_first()
            &&& all_within_depth(fs, recursive, s.1, h)
        },
        files.len() == 0 && dirs.len() == 0 ==> steps_left(fs, recursive, files, dirs, h).len()
            == 0,
{
    let ahead = steps_left(fs, recursive, files, dirs, h);
    let rest = walk_all(fs, recursive, dirs, h);
    if files.len() > 0 {
        assert(ahead[0] == yields(files)[0]);
        assert(yields(files.drop_first()) + rest =~= ahead.drop_first());
    } else if dirs.len() > 0 {
        let d = dirs[0];
        let tail = dirs.drop_first();
        let es = fs[d];
        let lf = listed_files(es);
        let ld = listed_dirs(es, recursive);
        assert(within_depth(fs, recursive, d, h));
        assert(yields(files) =~= Seq::<(bool, Seq<char>)>::empty());
        assert(ahead =~= rest);
        lemma_after_listing(files, tail, es, recursive);
        assert(files + lf =~= lf);
        // the subdirectories of `d` lie within depth h - 1, hence within h
        lemma_all_within_depth_deeper(fs, recursive, ld, (h - 1) as nat);
        assert(((h - 1) as nat) + 1 == h);
        lemma_walk_all_deeper(fs, recursive, ld, (h - 1) as nat);
        lemma_walk_all_append(fs, recursive, ld, tail, h);
        let wd = walk_all(fs, recursive, ld, h);
        let wt = walk_all(fs, recursive, tail, h);
        assert(walk(fs, recursive, d, h) == seq![(false, d)] + yields(lf) + wd);
        assert(rest == walk(fs, recursive, d, h) + wt);
        assert((seq![(false, d)] + yields(lf) + wd + wt).drop_first() =~= yields(lf) + (wd + wt));
        lemma_all_within_depth_append(fs, recursive, ld, tail, h);
    } else {
        assert(yields(files) =~= Seq::<(bool, Seq<char>)>::empty());
    }
}

/// The text a directory's entries start with: `d` itself when it ends in a slash (the
/// root), otherwise `d` and a slash.
pub open spec fn dir_prefix(d: Seq<char>) -> Seq<char> {
    if d.len() > 0 && d[d.len() - 1] == '/' {
        d
    } else {
        d.push('/')
    }
}

/// `p` is the canonical path of an entry of directory `d`: the directory's prefix, then
/// a nonempty name without a slash.
pub open spec fn entry_of(d: Seq<char>, p: Seq<char>) -> bool {
    let q = dir_prefix(d);
    &&& p.len() > q.len()
    &&& p.take(q.len() as int) == q
    &&& forall|k: int| q.len() <= k < p.len() ==> p[k] != '/'
}

/// `x` lies somewhere below directory `d`.
pub open spec fn below(d: Seq<char>, x: Seq<char>) -> bool {
    let q = dir_prefix(d);
    x.len() > q.len() && x.take(q.len() as int) == q
}

/// The entries listed for `d` are entries of `d`, each under its own path.
pub open spec fn listing_ok(d: Seq<char>, es: Seq<(Seq<char>, bool, bool)>) -> bool {
    &&& forall|i: int| 0 <= i < es.len() ==> entry_of(d, #[trigger] es[i].0)
    &&& forall|i: int, j: int| 0 <= i < j < es.len() ==> #[trigger] es[i].0 != #[trigger] es[j].0
}

/// The listings of `d` and of every directory a walk of it reaches within `h` levels are
/// there and list canonical paths, as a directory tree without links gives them.
pub open spec fn tree_ok(
    fs: Map<Seq<char>, Seq<(Seq<char>, bool, bool)>>,
    recursive: bool,
    d: Seq<char>,
    h: nat,
) -> bool
    decreases h, 0int,
{
    if h == 0 {
        false
    } else {
        &&& fs.dom().contains(d)
        &&& listing_ok(d, fs[d])
        &&& all_tree_ok(fs, recursive, listed_dirs(fs[d], recursive), (h - 1) as nat)
    }
}

/// `tree_ok` holds of every directory of `ds`.
pub open spec fn all_tree_ok(
    fs: Map<Seq<char>, Seq<(Seq<char>, bool, bool)>>,
    recursive: bool,
    ds: Seq<Seq<char>>,
    h: nat,
) -> bool
    decreases h, ds.len() + 1,
{
    if ds.len() == 0 {
        true
    } else {
        tree_ok(fs, recursive, ds[0], h) && all_tree_ok(fs, recursive, ds.drop_first(), h)
    }
}

/// `x` is a file listed in directory `d` or, within `h` levels, in a subdirectory a walk
/// of `d` visits.
pub open spec fn file_under(
    fs: Map<Seq<char>, Seq<(Seq<char>, bool, bool)>>,
    recursive: bool,
    d: Seq<char>,
    x: Seq<char>,
    h: nat,
) -> bool
    decreases h, 0int,
{
    if h == 0 {
        false
    } else {
        listed_files(fs[d]).contains(x) || file_under_all(
            fs,
            recursive,
            listed_dirs(fs[d], recursive),
            x,
            (h - 1) as nat,
        )
    }
}

/// `x` is a file under one of the directories `ds`.
pub open spec fn file_under_all(
    fs: Map<Seq<char>, Seq<(Seq<char>, bool, bool)>>,
    recursive: bool,
    ds: Seq<Seq<char>>,
    x: Seq<char>,
    h: nat,
) -> bool
    decreases h, ds.len() + 1,
{
    if ds.len() == 0 {
        false
    } else {
        file_under(fs, recursive, ds[0], x, h) || file_under_all(fs, recursive, ds.drop_first(), x, h)
    }
}

/// No file is handed out twice in the steps `w`.
pub open spec fn no_file_twice(w: Seq<(bool, Seq<char>)>) -> bool {
    forall|i: int, j: int|
        0 <= i < j < w.len() && w[i].0 && w[j].0 ==> #[trigger] w[i].1 != #[trigger] w[j].1
}

proof fn lemma_concat_contains<T>(a: Seq<T>, b: Seq<T>, v: T)
    ensures
        (a + b).contains(v) <==> a.contains(v) || b.contains(v),
{
    if (a + b).contains(v) {
        let i = choose|i: int| 0 <= i < (a + b).len() && (a + b)[i] == v;
        if i >= a.len() {
            assert(b[i - a.len()] == v);
        }
    }
    if a.contains(v) {
        let i = choose|i: int| 0 <= i < a.len() && a[i] == v;
        assert((a + b)[i] == v);
    }
    if b.contains(v) {
        let i = choose|i: int| 0 <= i < b.len() && b[i] == v;
        assert((a + b)[a.len() + i] == v);
    }
}

proof fn lemma_yields_contains(files: Seq<Seq<char>>, x: Seq<char>)
    ensures
        yields(files).contains((true, x)) <==> files.contains(x),
        !yields(files).contains((false, x)),
{
    if yields(files).contains((true, x)) {
        let i = choose|i: int| 0 <= i < yields(files).len() && yields(files)[i] == (true, x);
        assert(files[i] == x);
    }
    if files.contains(x) {
        let i = choose|i: int| 0 <= i < files.len() && files[i] == x;
        assert(yields(files)[i] == (true, x));
    }
}

/// The files and directories picked from a listing are paths of its entries, each once
/// when the entries' paths differ.
proof fn lemma_listed_from_entries(es: Seq<(Seq<char>, bool, bool)>, recursive: bool)
    requires
        forall|i: int, j: int| 0 <= i < j < es.len() ==> #[trigger] es[i].0 != #[trigger] es[j].0,
    ensures
        forall|x: Seq<char>| #[trigger] listed_files(es).contains(x) ==> exists|i: int| 0 <= i < es.len() && es[i].0 == x,
        forall|x: Seq<char>| #[trigger] listed_dirs(es, recursive).contains(x) ==> exists|i: int| 0 <= i < es.len() && es[i].0 == x,
        listed_files(es).no_duplicates(),
        listed_dirs(es, recursive).no_duplicates(),
    decreases es.len(),
{
    if es.len() > 0 {
        let es0 = es.drop_last();
        let e = es.last();
        assert forall|i: int, j: int| 0 <= i < j < es0.len() implies #[trigger] es0[i].0 != #[trigger] es0[j].0 by {
            assert(es0[i] == es[i] && es0[j] == es[j]);
        }
        lemma_listed_from_entries(es0, recursive);
        let lf0 = listed_files(es0);
        let ld0 = listed_dirs(es0, recursive);
        // the last entry's path is none of the earlier ones
        assert(!lf0.contains(e.0)) by {
            if lf0.contains(e.0) {
                let i = choose|i: int| 0 <= i < es0.len() && es0[i].0 == e.0;
                assert(es[i].0 != es[es.len() - 1].0);
            }
        }
        assert(!ld0.contains(e.0)) by {
            if ld0.contains(e.0) {
                let i = choose|i: int| 0 <= i < es0.len() && es0[i].0 == e.0;
                assert(es[i].0 != es[es.len() - 1].0);
            }
        }
        let tail: Seq<Seq<char>> = if e.1 { seq![e.0] } else { seq![] };
        assert forall|x: Seq<char>| #[trigger] listed_files(es).contains(x) implies exists|i: int| 0 <= i < es.len() && es[i].0 == x by {
            lemma_concat_contains(lf0, tail, x);
            if lf0.contains(x) {
                let i = choose|i: int| 0 <= i < es0.len() && es0[i].0 == x;
                assert(es[i] == es0[i]);
            } else {
                assert(es[es.len() - 1].0 == x);
            }
        }
        assert(listed_files(es).no_duplicates()) by {
            assert forall|i: int, j: int| 0 <= i < j < listed_files(es).len() implies listed_files(es)[i] != listed_files(es)[j] by {
                if j >= lf0.len() {
                    assert(listed_files(es)[i] == lf0[i]);
                    assert(lf0.contains(lf0[i]));
                } else {
                    assert(listed_files(es)[i] == lf0[i] && listed_files(es)[j] == lf0[j]);
                }
            }
        }
        if !e.1 && e.2 && recursive {
            let ld = listed_dirs(es, recursive);
            assert(ld == seq![e.0] + ld0);
            assert forall|x: Seq<char>| #[trigger] ld.contains(x) implies exists|i: int| 0 <= i < es.len() && es[i].0 == x by {
                lemma_concat_contains(seq![e.0], ld0, x);
                if ld0.contains(x) {
                    let i = choose|i: int| 0 <= i < es0.len() && es0[i].0 == x;
                    assert(es[i] == es0[i]);
                } else {
                    assert(es[es.len() - 1].0 == x);
                }
            }
            assert forall|i: int, j: int| 0 <= i < j < ld.len() implies ld[i] != ld[j] by {
                assert(ld[j] == ld0[j - 1]);
                if i == 0 {
                    assert(ld0.contains(ld0[j - 1]));
                } else {
                    assert(ld[i] == ld0[i - 1]);
                }
            }
        } else {
            assert forall|x: Seq<char>| #[trigger] listed_dirs(es, recursive).contains(x) implies exists|i: int| 0 <= i < es.len() && es[i].0 == x by {
                let i = choose|i: int| 0 <= i < es0.len() && es0[i].0 == x;
                assert(es[i] == es0[i]);
            }
        }
    }
}

/// A walk hands out `x` exactly when `x` is a file under the walked directory.
proof fn lemma_walk_contains(
    fs: Map<Seq<char>, Seq<(Seq<char>, bool, bool)>>,
    recursive: bool,
    d: Seq<char>,
    x: Seq<char>,
    h: nat,
)
    ensures
        walk(fs, recursive, d, h).contains((true, x)) <==> file_under(fs, recursive, d, x, h),
    decreases h, 0int,
{
    if h > 0 {
        let a: Seq<(bool, Seq<char>)> = seq![(false, d)];
        let b = yields(listed_files(fs[d]));
        let c = walk_all(fs, recursive, listed_dirs(fs[d], recursive), (h - 1) as nat);
        lemma_concat_contains(a + b, c, (true, x));
        lemma_concat_contains(a, b, (true, x));
        lemma_yields_contains(listed_files(fs[d]), x);
        lemma_walk_all_contains(fs, recursive, listed_dirs(fs[d], recursive), x, (h - 1) as nat);
        assert(!a.contains((true, x))) by {
            if a.contains((true, x)) {
                let i = choose|i: int| 0 <= i < a.len() && a[i] == (true, x);
                assert(a[i] == (false, d));
            }
        }
    } else {
        assert(walk(fs, recursive, d, h) =~= Seq::<(bool, Seq<char>)>::empty());
    }
}

proof fn lemma_walk_all_contains(
    fs: Map<Seq<char>, Seq<(Seq<char>, bool, bool)>>,
    recursive: bool,
    ds: Seq<Seq<char>>,
    x: Seq<char>,
    h: nat,
)
    ensures
        walk_all(fs, recursive, ds, h).contains((true, x)) <==> file_under_all(fs, recursive, ds, x, h),
    decreases h, ds.len() + 1,
{
    if ds.len() > 0 {
        lemma_walk_contains(fs, recursive, ds[0], x, h);
        lemma_walk_all_contains(fs, recursive, ds.drop_first(), x, h);
        lemma_concat_contains(
            walk(fs, recursive, ds[0], h),
            walk_all(fs, recursive, ds.drop_first(), h),
            (true, x),
        );
    } else {
        assert(walk_all(fs, recursive, ds, h) =~= Seq::<(bool, Seq<char>)>::empty());
    }
}

/// Below an entry `s` of `d` is below `d`, with a slash right after `s`.
proof fn lemma_below_entry(d: Seq<char>, s: Seq<char>, x: Seq<char>)
    requires
        entry_of(d, s),
        below(s, x),
    ensures
        below(d, x),
        dir_prefix(d).len() <= s.len() < x.len(),
        x[s.len() as int] == '/',
        forall|k: int| 0 <= k < s.len() ==> x[k] == s[k],
{
    let q = dir_prefix(d);
    assert(s[s.len() - 1] != '/');
    assert(dir_prefix(s) == s.push('/'));
    assert forall|k: int| 0 <= k < s.len() implies x[k] == s[k] by {
        assert(x.take(s.len() as int + 1)[k] == s.push('/')[k]);
    }
    assert(x.take(s.len() as int + 1)[s.len() as int] == s.push('/')[s.len() as int]);
    assert forall|k: int| 0 <= k < q.len() implies x.take(q.len() as int)[k] == q[k] by {
        assert(s.take(q.len() as int)[k] == q[k]);
    }
    assert(x.take(q.len() as int) =~= q);
}

/// Two different entries of a directory have nothing below both of them.
proof fn lemma_apart(d: Seq<char>, s1: Seq<char>, s2: Seq<char>, x: Seq<char>)
    requires
        entry_of(d, s1),
        entry_of(d, s2),
        s1 != s2,
    ensures
        !(below(s1, x) && below(s2, x)),
{
    if !(below(s1, x) && below(s2, x)) {
        return;
    }
    lemma_below_entry(d, s1, x);
    lemma_below_entry(d, s2, x);
    if s1.len() == s2.len() {
        assert(s1 =~= s2);
    } else if s1.len() < s2.len() {
        assert(x[s1.len() as int] == s2[s1.len() as int]);
    } else {
        assert(x[s2.len() as int] == s1[s2.len() as int]);
    }
}

/// A file under a well-formed directory lies below it.
proof fn lemma_file_under_below(
    fs: Map<Seq<char>, Seq<(Seq<char>, bool, bool)>>,
    recursive: bool,
    d: Seq<char>,
    x: Seq<char>,
    h: nat,
)
    requires
        tree_ok(fs, recursive, d, h),
        file_under(fs, recursive, d, x, h),
    ensures
        below(d, x),
        listed_files(fs[d]).contains(x) || exists|m: int| dir_prefix(d).len() <= m < x.len() && x[m] == '/',
    decreases h,
{
    let es = fs[d];
    lemma_listed_from_entries(es, recursive);
    if listed_files(es).contains(x) {
        let i = choose|i: int| 0 <= i < es.len() && es[i].0 == x;
        assert(entry_of(d, es[i].0));
    } else {
        let ds = listed_dirs(es, recursive);
        let k = lemma_file_under_some(fs, recursive, ds, x, (h - 1) as nat);
        assert(ds.contains(ds[k]));
        let i = choose|i: int| 0 <= i < es.len() && es[i].0 == ds[k];
        assert(entry_of(d, es[i].0));
        lemma_file_under_below(fs, recursive, ds[k], x, (h - 1) as nat);
        lemma_below_entry(d, ds[k], x);
    }
}

/// A file under one of `ds` is under some `ds[k]`, a well-formed directory.
proof fn lemma_file_under_some(
    fs: Map<Seq<char>, Seq<(Seq<char>, bool, bool)>>,
    recursive: bool,
    ds: Seq<Seq<char>>,
    x: Seq<char>,
    h: nat,
) -> (k: int)
    requires
        all_tree_ok(fs, recursive, ds, h),
        file_under_all(fs, recursive, ds, x, h),
    ensures
        0 <= k < ds.len(),
        file_under(fs, recursive, ds[k], x, h),
        tree_ok(fs, recursive, ds[k], h),
    decreases ds.len(),
{
    if file_under(fs, recursive, ds[0], x, h) {
        0
    } else {
        let k = lemma_file_under_some(fs, recursive, ds.drop_first(), x, h);
        k + 1
    }
}

proof fn lemma_no_twice_concat(a: Seq<(bool, Seq<char>)>, b: Seq<(bool, Seq<char>)>)
    requires
        no_file_twice(a),
        no_file_twice(b),
        forall|x: Seq<char>| a.contains((true, x)) ==> !b.contains((true, x)),
    ensures
        no_file_twice(a + b),
{
    let w = a + b;
    assert forall|i: int, j: int| 0 <= i < j < w.len() && w[i].0 && w[j].0 implies #[trigger] w[i].1 != #[trigger] w[j].1 by {
        if j < a.len() {
            assert(w[i] == a[i] && w[j] == a[j]);
        } else if i >= a.len() {
            assert(w[i] == b[i - a.len()] && w[j] == b[j - a.len()]);
        } else {
            assert(w[i] == a[i] && w[j] == b[j - a.len()]);
            if w[i].1 == w[j].1 {
                assert(a[i] == (true, w[i].1));
                assert(a.contains((true, w[i].1)));
                assert(b.contains((true, w[i].1)));
            }
        }
    }
}

/// A walk of a well-formed directory hands out no file twice.
proof fn lemma_walk_once(
    fs: Map<Seq<char>, Seq<(Seq<char>, bool, bool)>>,
    recursive: bool,
    d: Seq<char>,
    h: nat,
)
    requires
        tree_ok(fs, recursive, d, h),
    ensures
        no_file_twice(walk(fs, recursive, d, h)),
    decreases h, 0int,
{
    let es = fs[d];
    let lf = listed_files(es);
    let ds = listed_dirs(es, recursive);
    lemma_listed_from_entries(es, recursive);
    let a: Seq<(bool, Seq<char>)> = seq![(false, d)];
    let b = yields(lf);
    let c = walk_all(fs, recursive, ds, (h - 1) as nat);
    assert(no_file_twice(a));
    assert(no_file_twice(b)) by {
        assert forall|i: int, j: int| 0 <= i < j < b.len() && b[i].0 && b[j].0 implies #[trigger] b[i].1 != #[trigger] b[j].1 by {
            assert(b[i].1 == lf[i] && b[j].1 == lf[j]);
        }
    }
    assert forall|x: Seq<char>| a.contains((true, x)) implies !b.contains((true, x)) by {
        let i = choose|i: int| 0 <= i < a.len() && a[i] == (true, x);
        assert(a[i] == (false, d));
    }
    lemma_no_twice_concat(a, b);
    assert forall|i: int| 0 <= i < ds.len() implies entry_of(d, #[trigger] ds[i]) by {
        assert(ds.contains(ds[i]));
        let j = choose|j: int| 0 <= j < es.len() && es[j].0 == ds[i];
        assert(entry_of(d, es[j].0));
    }
    lemma_walk_all_once(fs, recursive, d, ds, (h - 1) as nat);
    assert forall|x: Seq<char>| (a + b).contains((true, x)) implies !c.contains((true, x)) by {
        lemma_concat_contains(a, b, (true, x));
        lemma_yields_contains(lf, x);
        if a.contains((true, x)) {
            let i = choose|i: int| 0 <= i < a.len() && a[i] == (true, x);
            assert(a[i] == (false, d));
        }
        if c.contains((true, x)) {
            lemma_walk_all_contains(fs, recursive, ds, x, (h - 1) as nat);
            let k = lemma_file_under_some(fs, recursive, ds, x, (h - 1) as nat);
            lemma_file_under_below(fs, recursive, ds[k], x, (h - 1) as nat);
            lemma_below_entry(d, ds[k], x);
            let i = choose|i: int| 0 <= i < es.len() && es[i].0 == x;
            assert(entry_of(d, es[i].0));
            assert(x[ds[k].len() as int] == '/');
        }
    }
    lemma_no_twice_concat(a + b, c);
}

/// The walks of different well-formed entries of `d`, one after the other, hand out no
/// file twice.
proof fn lemma_walk_all_once(
    fs: Map<Seq<char>, Seq<(Seq<char>, bool, bool)>>,
    recursive: bool,
    d: Seq<char>,
    ds: Seq<Seq<char>>,
    h: nat,
)
    requires
        all_tree_ok(fs, recursive, ds, h),
        ds.no_duplicates(),
        forall|i: int| 0 <= i < ds.len() ==> entry_of(d, #[trigger] ds[i]),
    ensures
        no_file_twice(walk_all(fs, recursive, ds, h)),
    decreases h, ds.len() + 1,
{
    if ds.len() == 0 {
        assert(walk_all(fs, recursive, ds, h) =~= Seq::<(bool, Seq<char>)>::empty());
    } else {
        let rest = ds.drop_first();
        assert forall|i: int| 0 <= i < rest.len() implies entry_of(d, #[trigger] rest[i]) by {
            assert(rest[i] == ds[i + 1]);
        }
        assert(rest.no_duplicates()) by {
            assert forall|i: int, j: int| 0 <= i < j < rest.len() implies rest[i] != rest[j] by {
                assert(rest[i] == ds[i + 1] && rest[j] == ds[j + 1]);
            }
        }
        lemma_walk_once(fs, recursive, ds[0], h);
        lemma_walk_all_once(fs, recursive, d, rest, h);
        let w0 = walk(fs, recursive, ds[0], h);
        let wr = walk_all(fs, recursive, rest, h);
        assert forall|x: Seq<char>| w0.contains((true, x)) implies !wr.contains((true, x)) by {
            lemma_walk_contains(fs, recursive, ds[0], x, h);
            lemma_file_under_below(fs, recursive, ds[0], x, h);
            if wr.contains((true, x)) {
                lemma_walk_all_contains(fs, recursive, rest, x, h);
                let k = lemma_file_under_some(fs, recursive, rest, x, h);
                lemma_file_under_below(fs, recursive, rest[k], x, h);
                assert(rest[k] == ds[k + 1]);
                assert(ds[0] != ds[k + 1]);
                lemma_apart(d, ds[0], rest[k], x);
            }
        }
        lemma_no_twice_concat(w0, wr);
    }
}

/// A walk of a directory tree without links hands out exactly the files under the base
/// directory (those listed in it and, when recursive, in the subdirectories it visits),
/// and each of them once. With `lemma_walk_starts` and `lemma_walk_step` this is what a
/// whole run of the collector hands out before `next_action` is done.
pub proof fn lemma_walk_files(
    fs: Map<Seq<char>, Seq<(Seq<char>, bool, bool)>>,
    recursive: bool,
    base: Seq<char>,
    h: nat,
)
    requires
        tree_ok(fs, recursive, base, h),
    ensures
        forall|x: Seq<char>| #[trigger] walk(fs, recursive, base, h).contains((true, x)) <==> file_under(
            fs,
            recursive,
            base,
            x,
            h,
        ),
        no_file_twice(walk(fs, recursive, base, h)),
{
    assert forall|x: Seq<char>| #[trigger] walk(fs, recursive, base, h).contains((true, x)) <==> file_under(
        fs,
        recursive,
        base,
        x,
        h,
    ) by {
        lemma_walk_contains(fs, recursive, base, x, h);
    }
    lemma_walk_once(fs, recursive, base, h);
}

} // verus!
