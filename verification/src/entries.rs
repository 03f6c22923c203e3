//! Directory listings as read from disk, and the numbered entries in them.
use vstd::prelude::*;
use crate::path::{file_name_as_number, spec_file_name_as_number};

verus! {

broadcast use vstd::seq_lib::group_to_multiset_ensures;

pub open spec fn strings_view(v: Seq<String>) -> Seq<Seq<char>> {
    v.map_values(|s: String| s@)
}

/// The paths of the entries of the directory `dir`, as `read_dir` yields them
/// (each is `dir` joined with an entry's name).
#[derive(Debug)]
pub struct DirListing {
    pub dir: String,
    pub entries: Vec<String>,
}

impl View for DirListing {
    type V = (Seq<char>, Seq<Seq<char>>);

    open spec fn view(&self) -> (Seq<char>, Seq<Seq<char>>) {
        (self.dir@, strings_view(self.entries@))
    }
}

/// What was read from disk: the listings of the directories that could be
/// read (a directory with no listing here could not be read), which of the
/// listed paths exist, as `std::fs::exists` tells (a dangling link does not),
/// and which of them are directories.
#[derive(Debug)]
pub struct FsSnapshot {
    pub listings: Vec<DirListing>,
    pub existing: Vec<String>,
    pub directories: Vec<String>,
}

/// The listings, each as its directory and its entries, the paths that
/// exist, and the paths that are directories.
pub type SnapView = (Seq<(Seq<char>, Seq<Seq<char>>)>, Seq<Seq<char>>, Seq<Seq<char>>);

impl View for FsSnapshot {
    type V = SnapView;

    open spec fn view(&self) -> SnapView {
        (
            self.listings@.map_values(|l: DirListing| l@),
            strings_view(self.existing@),
            strings_view(self.directories@),
        )
    }
}

/// The entries that the first listing of `dir` holds, if there is one.
pub open spec fn contents_of(snap: Seq<(Seq<char>, Seq<Seq<char>>)>, dir: Seq<char>) -> Option<
    Seq<Seq<char>>,
>
    decreases snap.len(),
{
    if snap.len() == 0 {
        None
    } else if snap[0].0 == dir {
        Some(snap[0].1)
    } else {
        contents_of(snap.drop_first(), dir)
    }
}

/// Whether `path` exists.
pub open spec fn spec_path_exists(snap: SnapView, path: Seq<char>) -> bool {
    snap.1.contains(path)
}

/// Whether `path` is a directory.
pub open spec fn spec_is_dir(snap: SnapView, path: Seq<char>) -> bool {
    snap.2.contains(path)
}

pub open spec fn is_numeric_entry(e: Seq<char>) -> bool {
    spec_file_name_as_number(e) is Some
}

/// The entries whose file name is a number, in their order.
pub open spec fn numeric_only(es: Seq<Seq<char>>) -> Seq<Seq<char>>
    decreases es.len(),
{
    if es.len() == 0 {
        es
    } else {
        let before = numeric_only(es.drop_last());
        if is_numeric_entry(es.last()) {
            before.push(es.last())
        } else {
            before
        }
    }
}

pub open spec fn spec_numeric_entries(snap: SnapView, dir: Seq<char>) -> Seq<Seq<char>> {
    match contents_of(snap.0, dir) {
        Some(es) => numeric_only(es),
        None => Seq::empty(),
    }
}

/// The number that names an entry, or -1 for an entry that is not named by one:
/// `file_name_as_number` as `Option<u32>` orders it.
pub open spec fn number_key(e: Seq<char>) -> int {
    match spec_file_name_as_number(e) {
        Some(n) => n as int,
        None => -1,
    }
}

/// `x` put into `s` after every entry from the end of `s` whose key is larger.
pub open spec fn insert_by_number(s: Seq<Seq<char>>, x: Seq<char>) -> Seq<Seq<char>>
    decreases s.len(),
{
    if s.len() == 0 {
        seq![x]
    } else if number_key(s.last()) <= number_key(x) {
        s.push(x)
    } else {
        insert_by_number(s.drop_last(), x).push(s.last())
    }
}

/// `s` sorted by `number_key`, equal keys in their order in `s`: what
/// `sort_by_key(|p| file_name_as_number(p))` leaves.
pub open spec fn sort_by_number(s: Seq<Seq<char>>) -> Seq<Seq<char>>
    decreases s.len(),
{
    if s.len() == 0 {
        s
    } else {
        insert_by_number(sort_by_number(s.drop_last()), s.last())
    }
}

pub open spec fn sorted_by_number(s: Seq<Seq<char>>) -> bool {
    forall|i: int, j: int| 0 <= i <= j < s.len() ==> number_key(s[i]) <= number_key(s[j])
}

/// The entries of `s` whose key is `k`, in their order.
pub open spec fn with_key(s: Seq<Seq<char>>, k: int) -> Seq<Seq<char>>
    decreases s.len(),
{
    if s.len() == 0 {
        s
    } else {
        let before = with_key(s.drop_last(), k);
        if number_key(s.last()) == k {
            before.push(s.last())
        } else {
            before
        }
    }
}

proof fn lemma_insert_at(s: Seq<Seq<char>>, x: Seq<char>, j: int)
    requires
        0 <= j <= s.len(),
        forall|i: int| j <= i < s.len() ==> number_key(#[trigger] s[i]) > number_key(x),
        j == 0 || number_key(s[j - 1]) <= number_key(x),
    ensures
        insert_by_number(s, x) == s.insert(j, x),
    decreases s.len(),
{
    if s.len() == 0 {
        assert(s.insert(j, x) =~= seq![x]);
    } else if number_key(s.last()) <= number_key(x) {
        assert(j == s.len());
        assert(s.insert(j, x) =~= s.push(x));
    } else {
        let t = s.drop_last();
        lemma_insert_at(t, x, j);
        assert(s.insert(j, x) =~= t.insert(j, x).push(s.last()));
    }
}

proof fn lemma_insert_bounded(s: Seq<Seq<char>>, x: Seq<char>, b: int)
    requires
        forall|i: int| 0 <= i < s.len() ==> number_key(#[trigger] s[i]) <= b,
        number_key(x) <= b,
    ensures
        forall|i: int|
            0 <= i < insert_by_number(s, x).len() ==> number_key(
                #[trigger] insert_by_number(s, x)[i],
            ) <= b,
    decreases s.len(),
{
    let r = insert_by_number(s, x);
    if s.len() == 0 {
        assert(r[0] == x);
    } else if number_key(s.last()) <= number_key(x) {
        assert forall|i: int| 0 <= i < r.len() implies number_key(#[trigger] r[i]) <= b by {
            if i < s.len() {
                assert(r[i] == s[i]);
            }
        }
    } else {
        let t = s.drop_last();
        lemma_insert_bounded(t, x, b);
        assert forall|i: int| 0 <= i < r.len() implies number_key(#[trigger] r[i]) <= b by {
            if i < r.len() - 1 {
                assert(r[i] == insert_by_number(t, x)[i]);
            } else {
                assert(r[i] == s[s.len() - 1]);
            }
        }
    }
}

proof fn lemma_insert_sorted(s: Seq<Seq<char>>, x: Seq<char>)
    requires
        sorted_by_number(s),
    ensures
        sorted_by_number(insert_by_number(s, x)),
        insert_by_number(s, x).to_multiset() == s.to_multiset().insert(x),
    decreases s.len(),
{
    if s.len() == 0 {
        assert(seq![x] =~= Seq::<Seq<char>>::empty().push(x));
    } else if number_key(s.last()) <= number_key(x) {
    } else {
        let t = s.drop_last();
        lemma_insert_sorted(t, x);
        lemma_insert_bounded(t, x, number_key(s.last()));
        assert(t.push(s.last()) == s);
    }
}

proof fn lemma_insert_with_key(s: Seq<Seq<char>>, x: Seq<char>, k: int)
    ensures
        with_key(insert_by_number(s, x), k) == (if number_key(x) == k {
            with_key(s, k).push(x)
        } else {
            with_key(s, k)
        }),
    decreases s.len(),
{
    if s.len() == 0 {
        let r = seq![x];
        assert(r.drop_last() == s);
    } else if number_key(s.last()) <= number_key(x) {
        assert(s.push(x).drop_last() == s);
    } else {
        let t = s.drop_last();
        lemma_insert_with_key(t, x, k);
        let r = insert_by_number(t, x).push(s.last());
        assert(r.drop_last() == insert_by_number(t, x));
    }
}

/// Sorting by number yields the same entries, in order of their numbers, and
/// entries with equal numbers in the order they had.
pub proof fn lemma_sort_by_number(s: Seq<Seq<char>>)
    ensures
        sorted_by_number(sort_by_number(s)),
        sort_by_number(s).to_multiset() == s.to_multiset(),
        forall|k: int| #[trigger] with_key(sort_by_number(s), k) == with_key(s, k),
    decreases s.len(),
{
    if s.len() > 0 {
        let t = s.drop_last();
        lemma_sort_by_number(t);
        lemma_insert_sorted(sort_by_number(t), s.last());
        assert(t.push(s.last()) == s);
        assert forall|k: int| #[trigger] with_key(sort_by_number(s), k) == with_key(s, k) by {
            lemma_insert_with_key(sort_by_number(t), s.last(), k);
        }
    }
}

/// The entries kept are those of the listing that are named by a number.
pub proof fn lemma_numeric_only(es: Seq<Seq<char>>)
    ensures
        forall|i: int| 0 <= i < numeric_only(es).len() ==> is_numeric_entry(#[trigger] numeric_only(es)[i]),
        forall|e: Seq<char>| #[trigger] es.contains(e) && is_numeric_entry(e) ==> numeric_only(es).contains(e),
        forall|e: Seq<char>| #[trigger] numeric_only(es).contains(e) ==> es.contains(e),
    decreases es.len(),
{
    if es.len() > 0 {
        let t = es.drop_last();
        lemma_numeric_only(t);
        let r = numeric_only(es);
        let rt = numeric_only(t);
        assert forall|e: Seq<char>| #[trigger] es.contains(e) && is_numeric_entry(e) implies r.contains(e) by {
            let i = choose|i: int| 0 <= i < es.len() && es[i] == e;
            if i < es.len() - 1 {
                assert(t[i] == e);
                assert(t.contains(e));
                let w = choose|w: int| 0 <= w < rt.len() && rt[w] == e;
                assert(r[w] == e);
            } else {
                assert(r[r.len() - 1] == e);
            }
        }
        assert forall|e: Seq<char>| #[trigger] r.contains(e) implies es.contains(e) by {
            let w = choose|w: int| 0 <= w < r.len() && r[w] == e;
            if w < rt.len() {
                assert(rt[w] == e);
                assert(rt.contains(e));
                let i = choose|i: int| 0 <= i < t.len() && t[i] == e;
                assert(es[i] == e);
            } else {
                assert(es[es.len() - 1] == e);
            }
        }
    }
}

/// The entries that the first listing of `dir` holds; `None` if `dir` could not be read.
pub fn dir_contents<'a>(snap: &'a FsSnapshot, dir: &String) -> (r: Option<&'a Vec<String>>)
    ensures
        match r {
            Some(v) => contents_of(snap@.0, dir@) == Some(strings_view(v@)),
            None => contents_of(snap@.0, dir@) == None::<Seq<Seq<char>>>,
        },
{
    let ghost ls = snap@.0;
    let n = snap.listings.len();
    assert(ls.skip(0) == ls);
    for i in 0..n
        invariant
            n == snap.listings.len(),
            ls == snap@.0,
            n == ls.len(),
            contents_of(ls, dir@) == contents_of(ls.skip(i as int), dir@),
    {
        assert(ls.skip(i as int).drop_first() == ls.skip(i + 1));
        assert(ls.skip(i as int)[0] == snap.listings@[i as int]@);
        if snap.listings[i].dir == *dir {
            return Some(&snap.listings[i].entries);
        }
    }
    assert(ls.skip(n as int).len() == 0);
    None
}

/// Whether `path` exists.
pub fn path_exists(snap: &FsSnapshot, path: &String) -> (r: bool)
    ensures
        r == spec_path_exists(snap@, path@),
{
    let ghost ex = snap@.1;
    let n = snap.existing.len();
    for i in 0..n
        invariant
            n == snap.existing.len(),
            ex == snap@.1,
            ex == strings_view(snap.existing@),
            forall|a: int| 0 <= a < i ==> ex[a] != path@,
    {
        if snap.existing[i] == *path {
            assert(ex[i as int] == path@);
            return true;
        }
    }
    false
}

/// Whether `path` is a directory.
pub fn path_is_dir(snap: &FsSnapshot, path: &String) -> (r: bool)
    ensures
        r == spec_is_dir(snap@, path@),
{
    let ghost ds = snap@.2;
    let n = snap.directories.len();
    for i in 0..n
        invariant
            n == snap.directories.len(),
            ds == snap@.2,
            ds == strings_view(snap.directories@),
            forall|a: int| 0 <= a < i ==> ds[a] != path@,
    {
        if snap.directories[i] == *path {
            assert(ds[i as int] == path@);
            return true;
        }
    }
    false
}

/// The entries of `dir` whose file names are numbers, in listing order; none
/// if `dir` could not be read.
pub fn numeric_entries_in_dir(snap: &FsSnapshot, dir: &String) -> (r: Vec<String>)
    ensures
        strings_view(r@) == spec_numeric_entries(snap@, dir@),
{
    let mut out: Vec<String> = Vec::new();
    match dir_contents(snap, dir) {
        None => {
            assert(strings_view(out@) =~= Seq::<Seq<char>>::empty());
        },
        Some(es) => {
            let n = es.len();
            for i in 0..n
                invariant
                    n == es.len(),
                    strings_view(out@) == numeric_only(strings_view(es@).take(i as int)),
            {
                let ghost all = strings_view(es@);
                assert(all.take(i + 1).drop_last() == all.take(i as int));
                assert(all.take(i + 1).last() == es@[i as int]@);
                let ghost before = out@;
                if file_name_as_number(es[i].as_str()).is_some() {
                    out.push(es[i].clone());
                    assert(strings_view(out@) == strings_view(before).push(es@[i as int]@));
                }
            }
            assert(strings_view(es@).take(n as int) == strings_view(es@));
        },
    }
    out
}

fn key_of(e: &String) -> (k: i64)
    ensures
        k == number_key(e@),
{
    match file_name_as_number(e.as_str()) {
        Some(n) => n as i64,
        None => -1,
    }
}

/// `es` sorted by the numbers that name its entries, equal numbers in their
/// order in `es`.
pub fn sort_entries_by_number(es: &Vec<String>) -> (r: Vec<String>)
    ensures
        strings_view(r@) == sort_by_number(strings_view(es@)),
{
    let ghost all = strings_view(es@);
    let mut out: Vec<String> = Vec::new();
    let mut keys: Vec<i64> = Vec::new();
    let n = es.len();
    for i in 0..n
        invariant
            n == es.len(),
            all == strings_view(es@),
            strings_view(out@) == sort_by_number(all.take(i as int)),
            keys@.len() == out@.len(),
            forall|t: int| 0 <= t < keys@.len() ==> keys@[t] == number_key(#[trigger] out@[t]@),
    {
        let x = es[i].clone();
        let kx = key_of(&x);
        let mut j = out.len();
        while j > 0 && keys[j - 1] > kx
            invariant
                j <= out@.len(),
                keys@.len() == out@.len(),
                forall|t: int| 0 <= t < keys@.len() ==> keys@[t] == number_key(#[trigger] out@[t]@),
                forall|t: int| j <= t < out@.len() ==> keys@[t] > kx,
            decreases j,
        {
            j = j - 1;
        }
        let ghost sv = strings_view(out@);
        proof {
            assert forall|t: int| j <= t < sv.len() implies number_key(#[trigger] sv[t]) > number_key(
                x@,
            ) by {
                assert(keys@[t] == number_key(out@[t]@));
            }
            if j > 0 {
                assert(keys@[j - 1] == number_key(out@[j - 1]@));
            }
            lemma_insert_at(sv, x@, j as int);
            assert(all.take(i + 1).drop_last() == all.take(i as int));
            assert(all.take(i + 1).last() == x@);
        }
        out.insert(j, x);
        keys.insert(j, kx);
        assert(strings_view(out@) =~= sv.insert(j as int, x@));
    }
    assert(all.take(n as int) == all);
    out
}

/// The entries of `dir` sorted by the numbers that name them.
pub open spec fn spec_sorted_numeric_entries(snap: SnapView, dir: Seq<char>) -> Seq<Seq<char>> {
    sort_by_number(spec_numeric_entries(snap, dir))
}

/// The entries of `dir` whose file names are numbers, in ascending order of
/// those numbers (entries with equal numbers keep their listing order); none
/// if `dir` could not be read.
pub fn sorted_numeric_entries_in_dir(snap: &FsSnapshot, dir: &String) -> (r: Vec<String>)
    ensures
        strings_view(r@) == spec_sorted_numeric_entries(snap@, dir@),
        sorted_by_number(strings_view(r@)),
        strings_view(r@).to_multiset() == spec_numeric_entries(snap@, dir@).to_multiset(),
        forall|k: int| #[trigger] with_key(strings_view(r@), k) == with_key(spec_numeric_entries(snap@, dir@), k),
{
    let entries = numeric_entries_in_dir(snap, dir);
    let r = sort_entries_by_number(&entries);
    proof {
        lemma_sort_by_number(strings_view(entries@));
    }
    r
}

/// The sorted numbered entries of `dir` are the numbered entries of its
/// listing, each named by a number, in ascending order of those numbers.
pub proof fn lemma_sorted_entries_ascend(snap: SnapView, dir: Seq<char>)
    ensures
        forall|i: int|
            0 <= i < spec_sorted_numeric_entries(snap, dir).len() ==> (
            #[trigger] spec_file_name_as_number(spec_sorted_numeric_entries(snap, dir)[i])) is Some,
        forall|i: int, j: int|
            0 <= i <= j < spec_sorted_numeric_entries(snap, dir).len() ==> spec_file_name_as_number(
                #[trigger] spec_sorted_numeric_entries(snap, dir)[i],
            )->0 <= spec_file_name_as_number(
                #[trigger] spec_sorted_numeric_entries(snap, dir)[j],
            )->0,
        spec_sorted_numeric_entries(snap, dir).to_multiset() == spec_numeric_entries(
            snap,
            dir,
        ).to_multiset(),
{
    let es = spec_numeric_entries(snap, dir);
    let r = spec_sorted_numeric_entries(snap, dir);
    lemma_sort_by_number(es);
    assert forall|i: int| 0 <= i < r.len() implies (#[trigger] spec_file_name_as_number(r[i])) is Some by {
        assert(r.to_multiset().count(r[i]) > 0);
        assert(es.to_multiset().count(r[i]) > 0);
        assert(es.contains(r[i]));
        let k = choose|k: int| 0 <= k < es.len() && es[k] == r[i];
        match contents_of(snap.0, dir) {
            Some(l) => {
                lemma_numeric_only(l);
                assert(is_numeric_entry(numeric_only(l)[k]));
            },
            None => {},
        }
    }
    assert forall|i: int, j: int| 0 <= i <= j < r.len() implies spec_file_name_as_number(
        #[trigger] r[i],
    )->0 <= spec_file_name_as_number(#[trigger] r[j])->0 by {
        assert(spec_file_name_as_number(r[i]) is Some);
        assert(spec_file_name_as_number(r[j]) is Some);
        assert(number_key(r[i]) <= number_key(r[j]));
    }
}

proof fn lemma_with_key_filter(s: Seq<Seq<char>>, n: u32)
    ensures
        with_key(s, n as int) == s.filter(|e: Seq<char>| spec_file_name_as_number(e) == Some(n)),
    decreases s.len(),
{
    reveal(Seq::filter);
    if s.len() > 0 {
        lemma_with_key_filter(s.drop_last(), n);
        let e = s.last();
        assert((number_key(e) == n as int) == (spec_file_name_as_number(e) == Some(n)));
    }
}

/// Sorting keeps entries that are named by the same number in their listing order.
pub proof fn lemma_sorted_entries_stable(snap: SnapView, dir: Seq<char>, n: u32)
    ensures
        spec_sorted_numeric_entries(snap, dir).filter(
            |e: Seq<char>| spec_file_name_as_number(e) == Some(n),
        ) == spec_numeric_entries(snap, dir).filter(
            |e: Seq<char>| spec_file_name_as_number(e) == Some(n),
        ),
{
    let es = spec_numeric_entries(snap, dir);
    lemma_sort_by_number(es);
    lemma_with_key_filter(es, n);
    lemma_with_key_filter(sort_by_number(es), n);
    assert(with_key(sort_by_number(es), n as int) == with_key(es, n as int));
}

} // verus!
