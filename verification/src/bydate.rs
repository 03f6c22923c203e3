//! The day directories under a base directory: where a day's directory is,
//! which date a directory stands for, the earliest and latest of them, and
//! runs of consecutive days.
use vstd::prelude::*;
use crate::calendar::{
    date_dir, date_dir_name, date_of_number, day_number, day_number_in_range, valid_ymd, Date,
};
use crate::entries::{
    numeric_entries_in_dir, path_exists, path_is_dir, spec_is_dir, spec_numeric_entries,
    spec_path_exists, strings_view, FsSnapshot, SnapView,
};
use crate::numbers::{parse_i32, parse_u32, spec_parse_i32, spec_parse_u32};
use crate::path::{
    comps_view, components, join, kept_comps, lemma_components_join, lemma_kept_push,
    lemma_kept_single, lemma_pieces_concat, lemma_pieces_plain, path_components, pieces,
    spec_join, starts_with_components, Comp, PathComponent,
};
use crate::calendar::{
    lemma_parse_sign_padded, lemma_parse_zero_padded, lemma_zero_padded, sign_padded, zero_padded,
};
use crate::numbers::is_ascii_digit;
use crate::text::string_of;

verus! {

/// The name of the link in the base directory that points at today's directory.
pub open spec fn today_link_name() -> Seq<char> {
    seq!['t', 'o', 'd', 'a', 'y']
}

/// The directory of the day numbered `n` under `base`.
pub open spec fn day_path_of(base: Seq<char>, n: int) -> Seq<char> {
    let t = date_of_number(n);
    spec_join(base, date_dir_name(t.0 as int, t.1 as nat, t.2 as nat))
}

/// What `Component::as_os_str` gives on Unix.
pub open spec fn comp_text(c: Comp) -> Seq<char> {
    match c {
        Comp::Root => seq!['/'],
        Comp::Cur => seq!['.'],
        Comp::Parent => seq!['.', '.'],
        Comp::Normal(n) => n,
    }
}

/// A component parsed as an `i32`: its text as `str::parse` reads it.
pub open spec fn comp_i32(c: Comp) -> Option<i32> {
    spec_parse_i32(comp_text(c))
}

/// A component parsed as a `u32`: its text as `str::parse` reads it.
pub open spec fn comp_u32(c: Comp) -> Option<u32> {
    spec_parse_u32(comp_text(c))
}

/// The root, `.` and `..` are no numbers: only a normal component can parse.
pub proof fn lemma_only_normal_components_parse(c: Comp)
    ensures
        !(c is Normal) ==> comp_i32(c) is None && comp_u32(c) is None,
{
    if !(c is Normal) {
        let t = comp_text(c);
        assert(!crate::numbers::is_ascii_digit(t[0]));
        assert(crate::numbers::without_plus(t) == t);
    }
}

/// Parses a path component as an `i32`, as `Component::parse_int` does.
pub fn component_parse_i32(c: &PathComponent) -> (r: Option<i32>)
    ensures
        r == comp_i32(c@),
{
    proof {
        lemma_only_normal_components_parse(c@);
    }
    match c {
        PathComponent::Normal(s) => parse_i32(s.as_str()),
        _ => None,
    }
}

/// Parses a path component as a `u32`, as `Component::parse_int` does.
pub fn component_parse_u32(c: &PathComponent) -> (r: Option<u32>)
    ensures
        r == comp_u32(c@),
{
    proof {
        lemma_only_normal_components_parse(c@);
    }
    match c {
        PathComponent::Normal(s) => parse_u32(s.as_str()),
        _ => None,
    }
}

/// The date that `path` stands for: it is `<base>/Y/M/D`, that is it lies
/// under `base` and has exactly three components more, its year, month and day.
pub open spec fn spec_parse_date(base: Seq<char>, path: Seq<char>) -> Option<(i32, u32, u32)> {
    let pc = components(path);
    let bc = components(base);
    let k = bc.len() as int;
    if bc.is_prefix_of(pc) && pc.len() == k + 3 {
        match (comp_i32(pc[k]), comp_u32(pc[k + 1]), comp_u32(pc[k + 2])) {
            (Some(y), Some(m), Some(d)) => if valid_ymd(y as int, m as int, d as int) {
                Some((y, m, d))
            } else {
                None
            },
            _ => None,
        }
    } else {
        None
    }
}

/// A path stands for a date exactly when its components are those of `base`
/// followed by three more, which read as that date's year, month and day.
pub proof fn lemma_parse_date_shape(base: Seq<char>, path: Seq<char>)
    ensures
        spec_parse_date(base, path) matches Some(t) ==> {
            let bc = components(base);
            let pc = components(path);
            let k = bc.len() as int;
            &&& pc == bc + seq![pc[k], pc[k + 1], pc[k + 2]]
            &&& spec_parse_i32(comp_text(pc[k])) == Some(t.0)
            &&& spec_parse_u32(comp_text(pc[k + 1])) == Some(t.1)
            &&& spec_parse_u32(comp_text(pc[k + 2])) == Some(t.2)
            &&& valid_ymd(t.0 as int, t.1 as int, t.2 as int)
        },
        forall|y: Comp, m: Comp, d: Comp|
            components(path) == components(base) + seq![y, m, d] ==> spec_parse_date(base, path) == (
            match (
                spec_parse_i32(comp_text(y)),
                spec_parse_u32(comp_text(m)),
                spec_parse_u32(comp_text(d)),
            ) {
                (Some(a), Some(b), Some(c)) => if valid_ymd(a as int, b as int, c as int) {
                    Some((a, b, c))
                } else {
                    None
                },
                _ => None,
            }),
{
    let bc = components(base);
    let pc = components(path);
    let k = bc.len() as int;
    if spec_parse_date(base, path) is Some {
        assert(pc =~= bc + seq![pc[k], pc[k + 1], pc[k + 2]]);
    }
    assert forall|y: Comp, m: Comp, d: Comp|
        components(path) == components(base) + seq![y, m, d] implies spec_parse_date(base, path) == (
        match (
            spec_parse_i32(comp_text(y)),
            spec_parse_u32(comp_text(m)),
            spec_parse_u32(comp_text(d)),
        ) {
            (Some(a), Some(b), Some(c)) => if valid_ymd(a as int, b as int, c as int) {
                Some((a, b, c))
            } else {
                None
            },
            _ => None,
        }) by {
        assert(bc.is_prefix_of(pc)) by {
            assert forall|i: int| 0 <= i < bc.len() implies bc[i] == pc[i] by {
                assert(pc[i] == (bc + seq![y, m, d])[i]);
            }
        }
        assert(pc[k] == (bc + seq![y, m, d])[k]);
        assert(pc[k + 1] == (bc + seq![y, m, d])[k + 1]);
        assert(pc[k + 2] == (bc + seq![y, m, d])[k + 2]);
    }
}

/// The date held, as a year, month and day.
pub open spec fn date_view(r: Option<Date>) -> Option<(i32, u32, u32)> {
    match r {
        Some(d) => Some(d@),
        None => None,
    }
}

/// `a` comes before `b` in the order sought: earlier, or, if `latest`, later.
pub open spec fn precedes(a: (i32, u32, u32), b: (i32, u32, u32), latest: bool) -> bool {
    if latest {
        ymd_number(a) > ymd_number(b)
    } else {
        ymd_number(a) < ymd_number(b)
    }
}

/// `found` is a date of which `p` holds and that no date of which `p` holds
/// precedes; `None` if `p` holds of no date.
pub open spec fn extreme_of(
    found: Option<(i32, u32, u32)>,
    p: spec_fn((i32, u32, u32)) -> bool,
    latest: bool,
) -> bool {
    match found {
        None => forall|t: (i32, u32, u32)| !#[trigger] p(t),
        Some(x) => p(x) && forall|t: (i32, u32, u32)| #[trigger] p(t) ==> !precedes(t, x, latest),
    }
}

/// Of two candidates, the one that comes first in the order sought (the
/// first one on a tie).
pub open spec fn pick_view(
    a: Option<(i32, u32, u32)>,
    b: Option<(i32, u32, u32)>,
    latest: bool,
) -> Option<(i32, u32, u32)> {
    match (a, b) {
        (None, _) => b,
        (_, None) => a,
        (Some(x), Some(y)) => if precedes(y, x, latest) {
            b
        } else {
            a
        },
    }
}

proof fn lemma_pick_extreme(
    a: Option<(i32, u32, u32)>,
    b: Option<(i32, u32, u32)>,
    p: spec_fn((i32, u32, u32)) -> bool,
    q: spec_fn((i32, u32, u32)) -> bool,
    latest: bool,
)
    requires
        extreme_of(a, p, latest),
        extreme_of(b, q, latest),
    ensures
        extreme_of(pick_view(a, b, latest), |t: (i32, u32, u32)| p(t) || q(t), latest),
{
    let pq = |t: (i32, u32, u32)| p(t) || q(t);
    match pick_view(a, b, latest) {
        None => {
            assert forall|t: (i32, u32, u32)| !#[trigger] pq(t) by {
                assert(!p(t) && !q(t));
            }
        },
        Some(x) => {
            assert(pq(x));
            assert forall|t: (i32, u32, u32)| #[trigger] pq(t) implies !precedes(t, x, latest) by {
                if p(t) {
                    assert(!p(t) || a is Some);
                } else {
                    assert(q(t));
                }
            }
        },
    }
}

/// The entry `p` is a directory that stands for the date `t`.
pub open spec fn dated_path(snap: SnapView, base: Seq<char>, p: Seq<char>, t: (i32, u32, u32)) -> bool {
    spec_is_dir(snap, p) && spec_parse_date(base, p) == Some(t)
}

/// Some numbered entry of `month` is a directory that stands for `t`.
pub open spec fn dated_in_month(
    snap: SnapView,
    base: Seq<char>,
    month: Seq<char>,
    t: (i32, u32, u32),
) -> bool {
    exists|i: int|
        0 <= i < spec_numeric_entries(snap, month).len() && dated_path(
            snap,
            base,
            #[trigger] spec_numeric_entries(snap, month)[i],
            t,
        )
}

/// Some numbered entry of `year` is a month with a directory that stands for `t`.
pub open spec fn dated_in_year(
    snap: SnapView,
    base: Seq<char>,
    year: Seq<char>,
    t: (i32, u32, u32),
) -> bool {
    exists|j: int|
        0 <= j < spec_numeric_entries(snap, year).len() && dated_in_month(
            snap,
            base,
            #[trigger] spec_numeric_entries(snap, year)[j],
            t,
        )
}

/// `t` is the date of a directory `<base>/Y/M/D` whose names `Y`, `M` and `D`
/// are numbers.
pub open spec fn dated_day(snap: SnapView, base: Seq<char>, t: (i32, u32, u32)) -> bool {
    exists|k: int|
        0 <= k < spec_numeric_entries(snap, base).len() && dated_in_year(
            snap,
            base,
            #[trigger] spec_numeric_entries(snap, base)[k],
            t,
        )
}

/// `t` is the earliest (or, if `latest`, the latest) date of a directory under `base`.
pub open spec fn is_extreme_day(
    snap: SnapView,
    base: Seq<char>,
    t: (i32, u32, u32),
    latest: bool,
) -> bool {
    dated_day(snap, base, t) && forall|u: (i32, u32, u32)|
        #[trigger] dated_day(snap, base, u) ==> !precedes(u, t, latest)
}

pub open spec fn spec_extreme_day(snap: SnapView, base: Seq<char>, latest: bool) -> Option<
    (i32, u32, u32),
> {
    if exists|t: (i32, u32, u32)| is_extreme_day(snap, base, t, latest) {
        Some(choose|t: (i32, u32, u32)| is_extreme_day(snap, base, t, latest))
    } else {
        None
    }
}

/// The earliest date that a directory under `base` stands for.
pub open spec fn spec_min_day(snap: SnapView, base: Seq<char>) -> Option<(i32, u32, u32)> {
    spec_extreme_day(snap, base, false)
}

/// The latest date that a directory under `base` stands for.
pub open spec fn spec_max_day(snap: SnapView, base: Seq<char>) -> Option<(i32, u32, u32)> {
    spec_extreme_day(snap, base, true)
}

/// The earliest dated directory comes no later than the latest, and each of
/// them is the date of a directory under `base`.
pub proof fn lemma_min_not_after_max(snap: SnapView, base: Seq<char>)
    ensures
        spec_min_day(snap, base) matches Some(lo) ==> dated_day(snap, base, lo),
        spec_max_day(snap, base) matches Some(hi) ==> dated_day(snap, base, hi),
        spec_min_day(snap, base) is Some && spec_max_day(snap, base) is Some ==> ymd_number(
            spec_min_day(snap, base).unwrap(),
        ) <= ymd_number(spec_max_day(snap, base).unwrap()),
{
    if let (Some(lo), Some(hi)) = (spec_min_day(snap, base), spec_max_day(snap, base)) {
        assert(is_extreme_day(snap, base, lo, false));
        assert(is_extreme_day(snap, base, hi, true));
        assert(!precedes(lo, hi, true));
    }
}

/// The candidate that comes first in the order sought among `f(0)` .. `f(n - 1)`.
spec fn best_of(
    n: nat,
    f: spec_fn(int) -> Option<(i32, u32, u32)>,
    latest: bool,
) -> Option<(i32, u32, u32)>
    decreases n,
{
    if n == 0 {
        None
    } else {
        pick_view(best_of((n - 1) as nat, f, latest), f(n - 1), latest)
    }
}

proof fn lemma_best_of(
    n: nat,
    f: spec_fn(int) -> Option<(i32, u32, u32)>,
    q: spec_fn(int, (i32, u32, u32)) -> bool,
    latest: bool,
)
    requires
        forall|i: int| 0 <= i < n ==> extreme_of(#[trigger] f(i), |t: (i32, u32, u32)| q(i, t), latest),
    ensures
        extreme_of(
            best_of(n, f, latest),
            |t: (i32, u32, u32)| exists|i: int| 0 <= i < n && #[trigger] q(i, t),
            latest,
        ),
    decreases n,
{
    if n > 0 {
        lemma_best_of((n - 1) as nat, f, q, latest);
        let p = |t: (i32, u32, u32)| exists|i: int| 0 <= i < n - 1 && #[trigger] q(i, t);
        let last = |t: (i32, u32, u32)| q(n - 1, t);
        assert(extreme_of(f(n - 1), last, latest));
        lemma_pick_extreme(best_of((n - 1) as nat, f, latest), f(n - 1), p, last, latest);
        let all = |t: (i32, u32, u32)| exists|i: int| 0 <= i < n && #[trigger] q(i, t);
        assert forall|t: (i32, u32, u32)| #[trigger] all(t) == (p(t) || last(t)) by {
            if all(t) {
                let i = choose|i: int| 0 <= i < n && #[trigger] q(i, t);
                if i < n - 1 {
                    assert(p(t));
                }
            }
        }
        assert(all =~= |t: (i32, u32, u32)| p(t) || last(t));
    }
}

/// The date that the directory `p` stands for, if it is a directory.
spec fn dir_date(snap: SnapView, base: Seq<char>, p: Seq<char>) -> Option<(i32, u32, u32)> {
    if spec_is_dir(snap, p) {
        spec_parse_date(base, p)
    } else {
        None
    }
}

spec fn month_best(snap: SnapView, base: Seq<char>, month: Seq<char>, latest: bool) -> Option<
    (i32, u32, u32),
> {
    let es = spec_numeric_entries(snap, month);
    best_of(es.len(), |i: int| dir_date(snap, base, es[i]), latest)
}

spec fn year_best(snap: SnapView, base: Seq<char>, year: Seq<char>, latest: bool) -> Option<
    (i32, u32, u32),
> {
    let ms = spec_numeric_entries(snap, year);
    best_of(ms.len(), |j: int| month_best(snap, base, ms[j], latest), latest)
}

spec fn base_best(snap: SnapView, base: Seq<char>, latest: bool) -> Option<(i32, u32, u32)> {
    let ys = spec_numeric_entries(snap, base);
    best_of(ys.len(), |k: int| year_best(snap, base, ys[k], latest), latest)
}

proof fn lemma_month_best(snap: SnapView, base: Seq<char>, month: Seq<char>, latest: bool)
    ensures
        extreme_of(
            month_best(snap, base, month, latest),
            |t: (i32, u32, u32)| dated_in_month(snap, base, month, t),
            latest,
        ),
{
    let es = spec_numeric_entries(snap, month);
    let f = |i: int| dir_date(snap, base, es[i]);
    let q = |i: int, t: (i32, u32, u32)| dated_path(snap, base, es[i], t);
    assert forall|i: int| 0 <= i < es.len() implies extreme_of(
        #[trigger] f(i),
        |t: (i32, u32, u32)| q(i, t),
        latest,
    ) by {
        let qi = |t: (i32, u32, u32)| q(i, t);
        match f(i) {
            Some(x) => {
                assert(qi(x));
                assert forall|t: (i32, u32, u32)| #[trigger] qi(t) implies !precedes(t, x, latest) by {
                    assert(t == x);
                }
            },
            None => {
                assert forall|t: (i32, u32, u32)| !#[trigger] qi(t) by {}
            },
        }
    }
    lemma_best_of(es.len(), f, q, latest);
    let all = |t: (i32, u32, u32)| exists|i: int| 0 <= i < es.len() && #[trigger] q(i, t);
    assert forall|t: (i32, u32, u32)| #[trigger] all(t) == dated_in_month(snap, base, month, t) by {
        if all(t) {
            let i = choose|i: int| 0 <= i < es.len() && #[trigger] q(i, t);
            assert(dated_path(snap, base, spec_numeric_entries(snap, month)[i], t));
        }
        if dated_in_month(snap, base, month, t) {
            let i = choose|i: int|
                0 <= i < spec_numeric_entries(snap, month).len() && dated_path(
                    snap,
                    base,
                    #[trigger] spec_numeric_entries(snap, month)[i],
                    t,
                );
            assert(q(i, t));
        }
    }
    assert(all =~= |t: (i32, u32, u32)| dated_in_month(snap, base, month, t));
}

proof fn lemma_year_best(snap: SnapView, base: Seq<char>, year: Seq<char>, latest: bool)
    ensures
        extreme_of(
            year_best(snap, base, year, latest),
            |t: (i32, u32, u32)| dated_in_year(snap, base, year, t),
            latest,
        ),
{
    let ms = spec_numeric_entries(snap, year);
    let f = |j: int| month_best(snap, base, ms[j], latest);
    let q = |j: int, t: (i32, u32, u32)| dated_in_month(snap, base, ms[j], t);
    assert forall|j: int| 0 <= j < ms.len() implies extreme_of(
        #[trigger] f(j),
        |t: (i32, u32, u32)| q(j, t),
        latest,
    ) by {
        lemma_month_best(snap, base, ms[j], latest);
        assert((|t: (i32, u32, u32)| q(j, t)) =~= |t: (i32, u32, u32)| dated_in_month(snap, base, ms[j], t));
    }
    lemma_best_of(ms.len(), f, q, latest);
    let all = |t: (i32, u32, u32)| exists|j: int| 0 <= j < ms.len() && #[trigger] q(j, t);
    assert forall|t: (i32, u32, u32)| #[trigger] all(t) == dated_in_year(snap, base, year, t) by {
        if all(t) {
            let j = choose|j: int| 0 <= j < ms.len() && #[trigger] q(j, t);
            assert(dated_in_month(snap, base, spec_numeric_entries(snap, year)[j], t));
        }
        if dated_in_year(snap, base, year, t) {
            let j = choose|j: int|
                0 <= j < spec_numeric_entries(snap, year).len() && dated_in_month(
                    snap,
                    base,
                    #[trigger] spec_numeric_entries(snap, year)[j],
                    t,
                );
            assert(q(j, t));
        }
    }
    assert(all =~= |t: (i32, u32, u32)| dated_in_year(snap, base, year, t));
}

proof fn lemma_base_best(snap: SnapView, base: Seq<char>, latest: bool)
    ensures
        extreme_of(base_best(snap, base, latest), |t: (i32, u32, u32)| dated_day(snap, base, t), latest),
{
    let ys = spec_numeric_entries(snap, base);
    let f = |k: int| year_best(snap, base, ys[k], latest);
    let q = |k: int, t: (i32, u32, u32)| dated_in_year(snap, base, ys[k], t);
    assert forall|k: int| 0 <= k < ys.len() implies extreme_of(
        #[trigger] f(k),
        |t: (i32, u32, u32)| q(k, t),
        latest,
    ) by {
        lemma_year_best(snap, base, ys[k], latest);
        assert((|t: (i32, u32, u32)| q(k, t)) =~= |t: (i32, u32, u32)| dated_in_year(snap, base, ys[k], t));
    }
    lemma_best_of(ys.len(), f, q, latest);
    let all = |t: (i32, u32, u32)| exists|k: int| 0 <= k < ys.len() && #[trigger] q(k, t);
    assert forall|t: (i32, u32, u32)| #[trigger] all(t) == dated_day(snap, base, t) by {
        if all(t) {
            let k = choose|k: int| 0 <= k < ys.len() && #[trigger] q(k, t);
            assert(dated_in_year(snap, base, spec_numeric_entries(snap, base)[k], t));
        }
        if dated_day(snap, base, t) {
            let k = choose|k: int|
                0 <= k < spec_numeric_entries(snap, base).len() && dated_in_year(
                    snap,
                    base,
                    #[trigger] spec_numeric_entries(snap, base)[k],
                    t,
                );
            assert(q(k, t));
        }
    }
    assert(all =~= |t: (i32, u32, u32)| dated_day(snap, base, t));
}

/// Every directory `<base>/Y/M/D` reached through numbered entries of the
/// base, of a year and of a month, that stands for a date, bounds the
/// earliest and latest dates: there are such dates, the earliest is no later
/// than it and the latest no earlier.
pub proof fn lemma_every_dated_directory_counts(
    snap: SnapView,
    base: Seq<char>,
    year: Seq<char>,
    month: Seq<char>,
    day: Seq<char>,
    t: (i32, u32, u32),
)
    requires
        spec_numeric_entries(snap, base).contains(year),
        spec_numeric_entries(snap, year).contains(month),
        spec_numeric_entries(snap, month).contains(day),
        spec_is_dir(snap, day),
        spec_parse_date(base, day) == Some(t),
    ensures
        spec_min_day(snap, base) is Some,
        spec_max_day(snap, base) is Some,
        ymd_number(spec_min_day(snap, base).unwrap()) <= ymd_number(t),
        ymd_number(t) <= ymd_number(spec_max_day(snap, base).unwrap()),
{
    let i = choose|i: int|
        0 <= i < spec_numeric_entries(snap, month).len() && spec_numeric_entries(snap, month)[i] == day;
    assert(dated_path(snap, base, spec_numeric_entries(snap, month)[i], t));
    assert(dated_in_month(snap, base, month, t));
    let j = choose|j: int|
        0 <= j < spec_numeric_entries(snap, year).len() && spec_numeric_entries(snap, year)[j] == month;
    assert(dated_in_month(snap, base, spec_numeric_entries(snap, year)[j], t));
    assert(dated_in_year(snap, base, year, t));
    let k = choose|k: int|
        0 <= k < spec_numeric_entries(snap, base).len() && spec_numeric_entries(snap, base)[k] == year;
    assert(dated_in_year(snap, base, spec_numeric_entries(snap, base)[k], t));
    assert(dated_day(snap, base, t));
    let p = |u: (i32, u32, u32)| dated_day(snap, base, u);
    assert(p(t));
    lemma_base_best(snap, base, false);
    lemma_base_best(snap, base, true);
    lemma_extreme_day_unique(snap, base, base_best(snap, base, false), false);
    lemma_extreme_day_unique(snap, base, base_best(snap, base, true), true);
}

/// The earliest and latest dates, when there are any, are each the date of a
/// directory `<base>/Y/M/D` reached through numbered entries of the base, of
/// a year and of a month.
pub proof fn lemma_min_max_come_from_directories(snap: SnapView, base: Seq<char>)
    ensures
        spec_min_day(snap, base) matches Some(x) ==> exists|
            year: Seq<char>,
            month: Seq<char>,
            day: Seq<char>,
        |
            #![trigger spec_numeric_entries(snap, year).contains(month), spec_numeric_entries(snap, month).contains(day)]
            spec_numeric_entries(snap, base).contains(year) && spec_numeric_entries(
                snap,
                year,
            ).contains(month) && spec_numeric_entries(snap, month).contains(day) && spec_is_dir(
                snap,
                day,
            ) && spec_parse_date(base, day) == Some(x),
        spec_max_day(snap, base) matches Some(x) ==> exists|
            year: Seq<char>,
            month: Seq<char>,
            day: Seq<char>,
        |
            #![trigger spec_numeric_entries(snap, year).contains(month), spec_numeric_entries(snap, month).contains(day)]
            spec_numeric_entries(snap, base).contains(year) && spec_numeric_entries(
                snap,
                year,
            ).contains(month) && spec_numeric_entries(snap, month).contains(day) && spec_is_dir(
                snap,
                day,
            ) && spec_parse_date(base, day) == Some(x),
{
    lemma_extreme_comes_from_directory(snap, base, false);
    lemma_extreme_comes_from_directory(snap, base, true);
}

proof fn lemma_extreme_comes_from_directory(snap: SnapView, base: Seq<char>, latest: bool)
    ensures
        spec_extreme_day(snap, base, latest) matches Some(x) ==> exists|
            year: Seq<char>,
            month: Seq<char>,
            day: Seq<char>,
        |
            #![trigger spec_numeric_entries(snap, year).contains(month), spec_numeric_entries(snap, month).contains(day)]
            spec_numeric_entries(snap, base).contains(year) && spec_numeric_entries(
                snap,
                year,
            ).contains(month) && spec_numeric_entries(snap, month).contains(day) && spec_is_dir(
                snap,
                day,
            ) && spec_parse_date(base, day) == Some(x),
{
    if let Some(x) = spec_extreme_day(snap, base, latest) {
        assert(is_extreme_day(snap, base, x, latest));
        let ys = spec_numeric_entries(snap, base);
        let k = choose|k: int| 0 <= k < ys.len() && dated_in_year(snap, base, #[trigger] ys[k], x);
        let year = ys[k];
        let ms = spec_numeric_entries(snap, year);
        let j = choose|j: int| 0 <= j < ms.len() && dated_in_month(snap, base, #[trigger] ms[j], x);
        let month = ms[j];
        let es = spec_numeric_entries(snap, month);
        let i = choose|i: int| 0 <= i < es.len() && dated_path(snap, base, #[trigger] es[i], x);
        let day = es[i];
        assert(ys.contains(year));
        assert(ms.contains(month));
        assert(es.contains(day));
    }
}

proof fn lemma_dated_day_valid(snap: SnapView, base: Seq<char>, t: (i32, u32, u32))
    requires
        dated_day(snap, base, t),
    ensures
        valid_ymd(t.0 as int, t.1 as int, t.2 as int),
{
    let k = choose|k: int|
        0 <= k < spec_numeric_entries(snap, base).len() && dated_in_year(
            snap,
            base,
            #[trigger] spec_numeric_entries(snap, base)[k],
            t,
        );
    let y = spec_numeric_entries(snap, base)[k];
    let j = choose|j: int|
        0 <= j < spec_numeric_entries(snap, y).len() && dated_in_month(
            snap,
            base,
            #[trigger] spec_numeric_entries(snap, y)[j],
            t,
        );
    let m = spec_numeric_entries(snap, y)[j];
    let i = choose|i: int|
        0 <= i < spec_numeric_entries(snap, m).len() && dated_path(
            snap,
            base,
            #[trigger] spec_numeric_entries(snap, m)[i],
            t,
        );
}

/// The date that the search over all dated directories finds is the one
/// `spec_extreme_day` names.
proof fn lemma_extreme_day_unique(
    snap: SnapView,
    base: Seq<char>,
    found: Option<(i32, u32, u32)>,
    latest: bool,
)
    requires
        extreme_of(found, |t: (i32, u32, u32)| dated_day(snap, base, t), latest),
    ensures
        found == spec_extreme_day(snap, base, latest),
{
    match found {
        Some(x) => {
            let p = |t: (i32, u32, u32)| dated_day(snap, base, t);
            assert(p(x));
            assert forall|u: (i32, u32, u32)| #[trigger] dated_day(snap, base, u) implies !precedes(
                u,
                x,
                latest,
            ) by {
                assert(p(u));
            }
            assert(is_extreme_day(snap, base, x, latest));
            let c = choose|t: (i32, u32, u32)| is_extreme_day(snap, base, t, latest);
            assert(is_extreme_day(snap, base, c, latest));
            lemma_dated_day_valid(snap, base, x);
            lemma_dated_day_valid(snap, base, c);
            assert(!precedes(c, x, latest) && !precedes(x, c, latest));
            crate::calendar::lemma_day_number_injective(
                x.0 as int,
                x.1 as int,
                x.2 as int,
                c.0 as int,
                c.1 as int,
                c.2 as int,
            );
        },
        None => {
            assert forall|t: (i32, u32, u32)| !is_extreme_day(snap, base, t, latest) by {
                assert(!((|u: (i32, u32, u32)| dated_day(snap, base, u))(t)));
            }
        },
    }
}

pub open spec fn ymd_number(t: (i32, u32, u32)) -> int {
    day_number(t.0 as int, t.1 as int, t.2 as int)
}

/// The direction in which `list_days` walks: forward for a non-negative offset.
pub open spec fn step_for(offset: int) -> int {
    if offset >= 0 {
        1
    } else {
        -1
    }
}

/// How many days `list_days` lists at most: `|offset| + 1`.
pub open spec fn count_for(offset: int) -> int {
    (if offset >= 0 {
        offset
    } else {
        -offset
    }) + 1
}

/// How many steps from today (today included) stay between `lo` and `hi`.
pub open spec fn window_steps(today_n: int, lo: int, hi: int, step: int) -> int {
    if !(lo <= today_n <= hi) {
        0
    } else if step > 0 {
        hi - today_n + 1
    } else {
        today_n - lo + 1
    }
}

/// The directories among the first `k` steps from today that exist, in step order.
pub open spec fn existing_days(
    snap: SnapView,
    base: Seq<char>,
    today_n: int,
    step: int,
    k: nat,
) -> Seq<Seq<char>>
    decreases k,
{
    if k == 0 {
        Seq::empty()
    } else {
        let before = existing_days(snap, base, today_n, step, (k - 1) as nat);
        let p = day_path_of(base, today_n + step * (k - 1));
        if spec_path_exists(snap, p) {
            before.push(p)
        } else {
            before
        }
    }
}

/// The `|offset| + 1` days from today in the direction of `offset`.
pub open spec fn consecutive_days(base: Seq<char>, today_n: int, offset: int) -> Seq<Seq<char>> {
    Seq::new(count_for(offset) as nat, |i: int| day_path_of(base, today_n + step_for(offset) * i))
}

/// The first `|offset| + 1` days from today, in the direction of `offset`,
/// whose directory exists, walking while the days stay between the days
/// numbered `lo` and `hi`.
pub open spec fn extant_days(
    snap: SnapView,
    base: Seq<char>,
    today_n: int,
    offset: int,
    lo: int,
    hi: int,
) -> Seq<Seq<char>> {
    let step = step_for(offset);
    let count = count_for(offset);
    let found = existing_days(snap, base, today_n, step, window_steps(today_n, lo, hi, step) as nat);
    if found.len() <= count {
        found
    } else {
        found.take(count)
    }
}

/// What `list_days` lists: the `|offset| + 1` days from today in the
/// direction of `offset`; with `only_extant`, the first `|offset| + 1` of
/// those days whose directory exists, walking from today while the days stay
/// between the earliest and latest dated directories (none if there are none).
pub open spec fn spec_list_days(
    snap: SnapView,
    base: Seq<char>,
    today_n: int,
    offset: int,
    only_extant: bool,
) -> Seq<Seq<char>> {
    if !only_extant {
        consecutive_days(base, today_n, offset)
    } else {
        match (spec_min_day(snap, base), spec_max_day(snap, base)) {
            (Some(lo), Some(hi)) => extant_days(snap, base, today_n, offset, ymd_number(lo), ymd_number(hi)),
            _ => Seq::empty(),
        }
    }
}

/// Without `only_extant`, `list_days` lists `|offset| + 1` days, the `i`-th
/// being the directory of the day `i` days from today in the direction of
/// `offset`, whatever directories there are.
pub proof fn lemma_all_days_listed(snap: SnapView, base: Seq<char>, today_n: int, offset: int)
    ensures
        spec_list_days(snap, base, today_n, offset, false).len() == (if offset >= 0 {
            offset
        } else {
            -offset
        }) + 1,
        forall|i: int|
            0 <= i < spec_list_days(snap, base, today_n, offset, false).len() ==> #[trigger] spec_list_days(
                snap,
                base,
                today_n,
                offset,
                false,
            )[i] == day_path_of(
                base,
                if offset >= 0 {
                    today_n + i
                } else {
                    today_n - i
                },
            ),
{
}

proof fn lemma_existing_days_exist(
    snap: SnapView,
    base: Seq<char>,
    today_n: int,
    step: int,
    k: nat,
)
    ensures
        forall|i: int|
            0 <= i < existing_days(snap, base, today_n, step, k).len() ==> spec_path_exists(
                snap,
                #[trigger] existing_days(snap, base, today_n, step, k)[i],
            ),
        existing_days(snap, base, today_n, step, k).len() <= k,
    decreases k,
{
    if k > 0 {
        lemma_existing_days_exist(snap, base, today_n, step, (k - 1) as nat);
        let b = existing_days(snap, base, today_n, step, (k - 1) as nat);
        let r = existing_days(snap, base, today_n, step, k);
        assert forall|i: int| 0 <= i < r.len() implies spec_path_exists(snap, #[trigger] r[i]) by {
            if i < b.len() {
                assert(r[i] == b[i]);
            }
        }
    }
}

/// Every day that `list_days` lists with `only_extant` has a directory, and
/// it lists at most `|offset| + 1` days.
pub proof fn lemma_listed_days_exist(
    snap: SnapView,
    base: Seq<char>,
    today_n: int,
    offset: int,
)
    ensures
        forall|i: int|
            0 <= i < spec_list_days(snap, base, today_n, offset, true).len() ==> spec_path_exists(
                snap,
                #[trigger] spec_list_days(snap, base, today_n, offset, true)[i],
            ),
        spec_list_days(snap, base, today_n, offset, true).len() <= count_for(offset),
{
    match (spec_min_day(snap, base), spec_max_day(snap, base)) {
        (Some(lo), Some(hi)) => {
            let step = step_for(offset);
            let k = window_steps(today_n, ymd_number(lo), ymd_number(hi), step) as nat;
            lemma_existing_days_exist(snap, base, today_n, step, k);
            let found = existing_days(snap, base, today_n, step, k);
            let r = spec_list_days(snap, base, today_n, offset, true);
            assert forall|i: int| 0 <= i < r.len() implies spec_path_exists(snap, #[trigger] r[i]) by {
                assert(r[i] == found[i]);
            }
        },
        _ => {},
    }
}

/// The inputs on which `list_days` neither overflows its count nor walks to a
/// day that `chrono::NaiveDate` cannot hold.
pub open spec fn list_days_defined(
    snap: SnapView,
    base: Seq<char>,
    today_n: int,
    offset: int,
    only_extant: bool,
) -> bool {
    let step = step_for(offset);
    let count = count_for(offset);
    if !only_extant {
        count <= i32::MAX && day_number_in_range(today_n + offset)
    } else {
        match (spec_min_day(snap, base), spec_max_day(snap, base)) {
            (Some(lo), Some(hi)) => {
                let k = window_steps(today_n, ymd_number(lo), ymd_number(hi), step);
                &&& count <= i32::MAX
                &&& (k > 0 && existing_days(snap, base, today_n, step, k as nat).len() < count)
                    ==> day_number_in_range(today_n + step * k)
            },
            _ => true,
        }
    }
}

proof fn lemma_existing_days_prefix(
    snap: SnapView,
    base: Seq<char>,
    today_n: int,
    step: int,
    k: nat,
    n: nat,
)
    requires
        k <= n,
    ensures
        existing_days(snap, base, today_n, step, k).len() <= existing_days(
            snap,
            base,
            today_n,
            step,
            n,
        ).len(),
        existing_days(snap, base, today_n, step, n).take(
            existing_days(snap, base, today_n, step, k).len() as int,
        ) == existing_days(snap, base, today_n, step, k),
    decreases n,
{
    if k < n {
        lemma_existing_days_prefix(snap, base, today_n, step, k, (n - 1) as nat);
        let a = existing_days(snap, base, today_n, step, k);
        let b = existing_days(snap, base, today_n, step, (n - 1) as nat);
        let c = existing_days(snap, base, today_n, step, n);
        assert(c.take(a.len() as int) == b.take(a.len() as int));
    } else {
        let a = existing_days(snap, base, today_n, step, k);
        assert(a.take(a.len() as int) == a);
    }
}

/// The number of the day `s` days from today in the direction of `offset`.
pub open spec fn walk_number(today_n: int, offset: int, s: int) -> int {
    if offset >= 0 {
        today_n + s
    } else {
        today_n - s
    }
}

/// `p` is the directory of the day `s` days from today in the direction of `offset`.
pub open spec fn is_day_at(p: Seq<char>, base: Seq<char>, today_n: int, offset: int, s: int) -> bool {
    p == day_path_of(base, walk_number(today_n, offset, s))
}

proof fn lemma_walk_number(today_n: int, offset: int, s: int)
    ensures
        today_n + step_for(offset) * s == walk_number(today_n, offset, s),
{
    if offset >= 0 {
        assert(step_for(offset) * s == s) by (nonlinear_arith)
            requires
                step_for(offset) == 1,
        ;
    } else {
        assert(step_for(offset) * s == -s) by (nonlinear_arith)
            requires
                step_for(offset) == -1,
        ;
    }
}

/// The `j`-th day found is, with its directory existing, at some step before `k`.
proof fn lemma_found_at_step(
    snap: SnapView,
    base: Seq<char>,
    today_n: int,
    offset: int,
    k: nat,
    j: int,
)
    requires
        0 <= j < existing_days(snap, base, today_n, step_for(offset), k).len(),
    ensures
        spec_path_exists(snap, existing_days(snap, base, today_n, step_for(offset), k)[j]),
        exists|s: int|
            0 <= s < k && #[trigger] is_day_at(
                existing_days(snap, base, today_n, step_for(offset), k)[j],
                base,
                today_n,
                offset,
                s,
            ),
    decreases k,
{
    let b = existing_days(snap, base, today_n, step_for(offset), (k - 1) as nat);
    let r = existing_days(snap, base, today_n, step_for(offset), k);
    if j < b.len() {
        lemma_found_at_step(snap, base, today_n, offset, (k - 1) as nat, j);
        assert(r[j] == b[j]);
        let s = choose|s: int| 0 <= s < k - 1 && #[trigger] is_day_at(b[j], base, today_n, offset, s);
        assert(is_day_at(r[j], base, today_n, offset, s));
    } else {
        lemma_walk_number(today_n, offset, k - 1);
        assert(is_day_at(r[j], base, today_n, offset, k - 1));
    }
}

/// Days found earlier in the walk are at earlier steps.
proof fn lemma_found_in_order(
    snap: SnapView,
    base: Seq<char>,
    today_n: int,
    offset: int,
    k: nat,
    j1: int,
    j2: int,
)
    requires
        0 <= j1 < j2 < existing_days(snap, base, today_n, step_for(offset), k).len(),
    ensures
        exists|s1: int, s2: int|
            #![trigger is_day_at(existing_days(snap, base, today_n, step_for(offset), k)[j1], base, today_n, offset, s1), is_day_at(existing_days(snap, base, today_n, step_for(offset), k)[j2], base, today_n, offset, s2)]
            0 <= s1 < s2 < k && is_day_at(
                existing_days(snap, base, today_n, step_for(offset), k)[j1],
                base,
                today_n,
                offset,
                s1,
            ) && is_day_at(
                existing_days(snap, base, today_n, step_for(offset), k)[j2],
                base,
                today_n,
                offset,
                s2,
            ),
    decreases k,
{
    let b = existing_days(snap, base, today_n, step_for(offset), (k - 1) as nat);
    let r = existing_days(snap, base, today_n, step_for(offset), k);
    if j2 < b.len() {
        lemma_found_in_order(snap, base, today_n, offset, (k - 1) as nat, j1, j2);
        assert(r[j1] == b[j1] && r[j2] == b[j2]);
        let (s1, s2) = choose|s1: int, s2: int|
            #![trigger is_day_at(b[j1], base, today_n, offset, s1), is_day_at(b[j2], base, today_n, offset, s2)]
            0 <= s1 < s2 < k - 1 && is_day_at(b[j1], base, today_n, offset, s1) && is_day_at(
                b[j2],
                base,
                today_n,
                offset,
                s2,
            );
        assert(is_day_at(r[j1], base, today_n, offset, s1) && is_day_at(r[j2], base, today_n, offset, s2));
    } else {
        lemma_found_at_step(snap, base, today_n, offset, (k - 1) as nat, j1);
        let s1 = choose|s1: int| 0 <= s1 < k - 1 && #[trigger] is_day_at(b[j1], base, today_n, offset, s1);
        lemma_walk_number(today_n, offset, k - 1);
        assert(r[j1] == b[j1]);
        assert(is_day_at(r[j1], base, today_n, offset, s1));
        assert(is_day_at(r[j2], base, today_n, offset, k - 1));
    }
}

/// The first `count` entries of `s`, or all of them if there are fewer.
pub open spec fn capped(s: Seq<Seq<char>>, count: int) -> Seq<Seq<char>> {
    if s.len() <= count {
        s
    } else {
        s.take(count)
    }
}

/// What `list_days` lists with `only_extant`, once the earliest and latest
/// dated directories are known.
proof fn lemma_extant_is_capped(
    snap: SnapView,
    base: Seq<char>,
    today_n: int,
    offset: int,
    lo: (i32, u32, u32),
    hi: (i32, u32, u32),
)
    requires
        spec_min_day(snap, base) == Some(lo),
        spec_max_day(snap, base) == Some(hi),
    ensures
        spec_list_days(snap, base, today_n, offset, true) == capped(
            existing_days(
                snap,
                base,
                today_n,
                step_for(offset),
                window_steps(today_n, ymd_number(lo), ymd_number(hi), step_for(offset)) as nat,
            ),
            count_for(offset),
        ),
{
}

/// With `only_extant`, `list_days` lists at most `|offset| + 1` days, and
/// none when today is not between the earliest and latest dated directories.
pub proof fn lemma_extant_listing_bounds(
    snap: SnapView,
    base: Seq<char>,
    today_n: int,
    offset: int,
    lo: (i32, u32, u32),
    hi: (i32, u32, u32),
)
    requires
        spec_min_day(snap, base) == Some(lo),
        spec_max_day(snap, base) == Some(hi),
    ensures
        spec_list_days(snap, base, today_n, offset, true).len() <= (if offset >= 0 {
            offset
        } else {
            -offset
        }) + 1,
        !(ymd_number(lo) <= today_n <= ymd_number(hi)) ==> spec_list_days(
            snap,
            base,
            today_n,
            offset,
            true,
        ).len() == 0,
{
    lemma_extant_is_capped(snap, base, today_n, offset, lo, hi);
}

/// With `only_extant` and no dated directory under `base`, nothing is listed.
pub proof fn lemma_extant_needs_dated_directories(
    snap: SnapView,
    base: Seq<char>,
    today_n: int,
    offset: int,
)
    ensures
        spec_min_day(snap, base) is None || spec_max_day(snap, base) is None ==> spec_list_days(
            snap,
            base,
            today_n,
            offset,
            true,
        ).len() == 0,
{
}

/// With `only_extant`, each listed day has a directory, lies between the
/// earliest and latest dated directories, and is some number of days from
/// today in the direction of `offset`.
pub proof fn lemma_extant_listed_day(
    snap: SnapView,
    base: Seq<char>,
    today_n: int,
    offset: int,
    lo: (i32, u32, u32),
    hi: (i32, u32, u32),
    j: int,
)
    requires
        spec_min_day(snap, base) == Some(lo),
        spec_max_day(snap, base) == Some(hi),
        0 <= j < spec_list_days(snap, base, today_n, offset, true).len(),
    ensures
        spec_path_exists(snap, spec_list_days(snap, base, today_n, offset, true)[j]),
        exists|s: int|
            0 <= s && ymd_number(lo) <= walk_number(today_n, offset, s) <= ymd_number(hi)
                && #[trigger] is_day_at(
                spec_list_days(snap, base, today_n, offset, true)[j],
                base,
                today_n,
                offset,
                s,
            ),
{
    lemma_extant_is_capped(snap, base, today_n, offset, lo, hi);
    let k = window_steps(today_n, ymd_number(lo), ymd_number(hi), step_for(offset)) as nat;
    let found = existing_days(snap, base, today_n, step_for(offset), k);
    let r = spec_list_days(snap, base, today_n, offset, true);
    assert(r[j] == found[j]);
    lemma_found_at_step(snap, base, today_n, offset, k, j);
    let s = choose|s: int| 0 <= s < k && #[trigger] is_day_at(found[j], base, today_n, offset, s);
    lemma_window_steps(today_n, offset, ymd_number(lo), ymd_number(hi), s);
    assert(is_day_at(r[j], base, today_n, offset, s));
}

/// With `only_extant`, the days are listed in the order of the walk from
/// today: a day listed before another is fewer days from today.
pub proof fn lemma_extant_listing_in_walk_order(
    snap: SnapView,
    base: Seq<char>,
    today_n: int,
    offset: int,
    lo: (i32, u32, u32),
    hi: (i32, u32, u32),
    j1: int,
    j2: int,
)
    requires
        spec_min_day(snap, base) == Some(lo),
        spec_max_day(snap, base) == Some(hi),
        0 <= j1 < j2 < spec_list_days(snap, base, today_n, offset, true).len(),
    ensures
        exists|s1: int, s2: int|
            #![trigger is_day_at(spec_list_days(snap, base, today_n, offset, true)[j1], base, today_n, offset, s1), is_day_at(spec_list_days(snap, base, today_n, offset, true)[j2], base, today_n, offset, s2)]
            0 <= s1 < s2 && is_day_at(
                spec_list_days(snap, base, today_n, offset, true)[j1],
                base,
                today_n,
                offset,
                s1,
            ) && is_day_at(
                spec_list_days(snap, base, today_n, offset, true)[j2],
                base,
                today_n,
                offset,
                s2,
            ),
{
    lemma_extant_is_capped(snap, base, today_n, offset, lo, hi);
    let k = window_steps(today_n, ymd_number(lo), ymd_number(hi), step_for(offset)) as nat;
    let found = existing_days(snap, base, today_n, step_for(offset), k);
    let r = spec_list_days(snap, base, today_n, offset, true);
    assert(r[j1] == found[j1] && r[j2] == found[j2]);
    lemma_found_in_order(snap, base, today_n, offset, k, j1, j2);
    let (s1, s2) = choose|s1: int, s2: int|
        #![trigger is_day_at(found[j1], base, today_n, offset, s1), is_day_at(found[j2], base, today_n, offset, s2)]
        0 <= s1 < s2 < k && is_day_at(found[j1], base, today_n, offset, s1) && is_day_at(
            found[j2],
            base,
            today_n,
            offset,
            s2,
        );
    assert(is_day_at(r[j1], base, today_n, offset, s1) && is_day_at(r[j2], base, today_n, offset, s2));
}

/// With `only_extant`, no day with a directory is skipped: a day between the
/// earliest and latest dated directories, on the walk from today (itself in
/// that window), whose directory exists, is listed unless `|offset| + 1`
/// days were listed.
pub proof fn lemma_extant_listing_complete(
    snap: SnapView,
    base: Seq<char>,
    today_n: int,
    offset: int,
    lo: (i32, u32, u32),
    hi: (i32, u32, u32),
    i: int,
)
    requires
        spec_min_day(snap, base) == Some(lo),
        spec_max_day(snap, base) == Some(hi),
        0 <= i,
        ymd_number(lo) <= today_n <= ymd_number(hi),
        ymd_number(lo) <= walk_number(today_n, offset, i) <= ymd_number(hi),
        spec_path_exists(snap, day_path_of(base, walk_number(today_n, offset, i))),
    ensures
        spec_list_days(snap, base, today_n, offset, true).contains(
            day_path_of(base, walk_number(today_n, offset, i)),
        ) || spec_list_days(snap, base, today_n, offset, true).len() == (if offset >= 0 {
            offset
        } else {
            -offset
        }) + 1,
{
    lemma_extant_is_capped(snap, base, today_n, offset, lo, hi);
    let k = window_steps(today_n, ymd_number(lo), ymd_number(hi), step_for(offset)) as nat;
    lemma_window_steps(today_n, offset, ymd_number(lo), ymd_number(hi), i);
    if !spec_list_days(snap, base, today_n, offset, true).contains(
        day_path_of(base, walk_number(today_n, offset, i)),
    ) {
        lemma_missing_day_comes_late(snap, base, today_n, offset, i, k, count_for(offset));
    }
}

/// With `only_extant`, a day with a directory that the walk passes but that is
/// not listed comes after every listed day: each listed day is nearer to today.
pub proof fn lemma_extant_skipped_day_is_late(
    snap: SnapView,
    base: Seq<char>,
    today_n: int,
    offset: int,
    lo: (i32, u32, u32),
    hi: (i32, u32, u32),
    i: int,
    j: int,
)
    requires
        spec_min_day(snap, base) == Some(lo),
        spec_max_day(snap, base) == Some(hi),
        0 <= i,
        ymd_number(lo) <= today_n <= ymd_number(hi),
        ymd_number(lo) <= walk_number(today_n, offset, i) <= ymd_number(hi),
        spec_path_exists(snap, day_path_of(base, walk_number(today_n, offset, i))),
        !spec_list_days(snap, base, today_n, offset, true).contains(
            day_path_of(base, walk_number(today_n, offset, i)),
        ),
        0 <= j < spec_list_days(snap, base, today_n, offset, true).len(),
    ensures
        exists|s: int|
            0 <= s < i && #[trigger] is_day_at(
                spec_list_days(snap, base, today_n, offset, true)[j],
                base,
                today_n,
                offset,
                s,
            ),
{
    lemma_extant_is_capped(snap, base, today_n, offset, lo, hi);
    let k = window_steps(today_n, ymd_number(lo), ymd_number(hi), step_for(offset)) as nat;
    lemma_window_steps(today_n, offset, ymd_number(lo), ymd_number(hi), i);
    lemma_missing_day_comes_late_at(snap, base, today_n, offset, i, k, count_for(offset), j);
}

/// The steps from today that stay between `lo` and `hi` are the first
/// `window_steps` ones.
proof fn lemma_window_steps(today_n: int, offset: int, lo_n: int, hi_n: int, s: int)
    requires
        0 <= s,
    ensures
        s < window_steps(today_n, lo_n, hi_n, step_for(offset)) <==> (lo_n <= today_n <= hi_n
            && lo_n <= walk_number(today_n, offset, s) <= hi_n),
{
}

/// A day at step `i < k` whose directory exists but that is not among the
/// first `count` existing days found: `count` days were found before it.
proof fn lemma_missing_day_comes_late(
    snap: SnapView,
    base: Seq<char>,
    today_n: int,
    offset: int,
    i: int,
    k: nat,
    count: int,
)
    requires
        0 <= i < k,
        0 <= count,
        spec_path_exists(snap, day_path_of(base, walk_number(today_n, offset, i))),
        !capped(existing_days(snap, base, today_n, step_for(offset), k), count).contains(
            day_path_of(base, walk_number(today_n, offset, i)),
        ),
    ensures
        capped(existing_days(snap, base, today_n, step_for(offset), k), count).len() == count,
        capped(existing_days(snap, base, today_n, step_for(offset), k), count)
            == existing_days(snap, base, today_n, step_for(offset), i as nat).take(count),
        count <= existing_days(snap, base, today_n, step_for(offset), i as nat).len(),
{
    let step = step_for(offset);
    let found = existing_days(snap, base, today_n, step, k);
    let r = capped(found, count);
    let p = day_path_of(base, walk_number(today_n, offset, i));
    lemma_walk_number(today_n, offset, i);
    let before = existing_days(snap, base, today_n, step, i as nat);
    let upto = existing_days(snap, base, today_n, step, (i + 1) as nat);
    assert(upto == before.push(p));
    lemma_existing_days_prefix(snap, base, today_n, step, (i + 1) as nat, k);
    let pos = before.len() as int;
    assert(found.take(upto.len() as int)[pos] == upto[pos]);
    assert(found[pos] == p);
    if found.len() <= count {
        assert(r[pos] == p);
        assert(false);
    }
    if pos < count {
        assert(r[pos] == p);
        assert(false);
    }
    lemma_existing_days_prefix(snap, base, today_n, step, i as nat, k);
    assert(r =~= before.take(count));
}

proof fn lemma_missing_day_comes_late_at(
    snap: SnapView,
    base: Seq<char>,
    today_n: int,
    offset: int,
    i: int,
    k: nat,
    count: int,
    j: int,
)
    requires
        0 <= i < k,
        0 <= count,
        spec_path_exists(snap, day_path_of(base, walk_number(today_n, offset, i))),
        !capped(existing_days(snap, base, today_n, step_for(offset), k), count).contains(
            day_path_of(base, walk_number(today_n, offset, i)),
        ),
        0 <= j < capped(existing_days(snap, base, today_n, step_for(offset), k), count).len(),
    ensures
        exists|s: int|
            0 <= s < i && #[trigger] is_day_at(
                capped(existing_days(snap, base, today_n, step_for(offset), k), count)[j],
                base,
                today_n,
                offset,
                s,
            ),
{
    lemma_missing_day_comes_late(snap, base, today_n, offset, i, k, count);
    let before = existing_days(snap, base, today_n, step_for(offset), i as nat);
    let r = capped(existing_days(snap, base, today_n, step_for(offset), k), count);
    assert(r[j] == before[j]);
    lemma_found_at_step(snap, base, today_n, offset, i as nat, j);
    let s = choose|s: int| 0 <= s < i && #[trigger] is_day_at(before[j], base, today_n, offset, s);
    assert(is_day_at(r[j], base, today_n, offset, s));
}

/// A part of a day's directory name: a non-empty run of characters with no
/// `/` that is neither `.` nor `..`.
pub open spec fn plain_part(p: Seq<char>) -> bool {
    &&& p.len() >= 2
    &&& p[0] != '.'
    &&& forall|i: int| 0 <= i < p.len() ==> p[i] != '/'
}

proof fn lemma_padded_plain(n: nat, w: nat)
    requires
        w >= 2,
    ensures
        plain_part(zero_padded(n, w)),
{
    lemma_zero_padded(n, w);
    let p = zero_padded(n, w);
    assert(is_ascii_digit(p[0]));
    assert forall|i: int| 0 <= i < p.len() implies p[i] != '/' by {
        assert(is_ascii_digit(p[i]));
    }
}

proof fn lemma_sign_padded_plain(y: int)
    ensures
        plain_part(sign_padded(y, 4)),
        sign_padded(y, 4).len() >= 4,
{
    if y < 0 {
        let z = zero_padded((0 - y) as nat, 3);
        lemma_padded_plain((0 - y) as nat, 3);
        let p = sign_padded(y, 4);
        assert(p == seq!['-'] + z);
        assert forall|i: int| 0 <= i < p.len() implies p[i] != '/' by {
            if i > 0 {
                assert(p[i] == z[i - 1]);
            }
        }
    } else {
        lemma_padded_plain(y as nat, 4);
    }
}

/// The components of three plain parts joined by `/`.
proof fn lemma_three_parts(a: Seq<char>, b: Seq<char>, c: Seq<char>)
    requires
        plain_part(a),
        plain_part(b),
        plain_part(c),
        a.len() != 2 || a[1] != '.',
        b.len() != 2 || b[1] != '.',
        c.len() != 2 || c[1] != '.',
    ensures
        kept_comps(pieces(a + seq!['/'] + b + seq!['/'] + c)) == seq![
            Comp::Normal(a),
            Comp::Normal(b),
            Comp::Normal(c),
        ],
{
    let bc = b + seq!['/'] + c;
    assert(a + seq!['/'] + b + seq!['/'] + c == a + seq!['/'] + bc);
    lemma_pieces_concat(a, bc);
    lemma_pieces_concat(b, c);
    lemma_pieces_plain(a);
    lemma_pieces_plain(b);
    lemma_pieces_plain(c);
    let ps = seq![a] + (seq![b] + seq![c]);
    assert(ps =~= seq![a, b].push(c));
    assert(seq![a, b] =~= seq![a].push(b));
    assert(a != seq!['.', '.'] && b != seq!['.', '.'] && c != seq!['.', '.']) by {
        if a == seq!['.', '.'] {
            assert(a[0] == '.');
        }
        if b == seq!['.', '.'] {
            assert(b[0] == '.');
        }
        if c == seq!['.', '.'] {
            assert(c[0] == '.');
        }
    }
    assert(a != seq!['.'] && b != seq!['.'] && c != seq!['.']) by {
        if a == seq!['.'] {
            assert(a.len() == 1);
        }
        if b == seq!['.'] {
            assert(b.len() == 1);
        }
        if c == seq!['.'] {
            assert(c.len() == 1);
        }
    }
    lemma_kept_single(a);
    lemma_kept_push(seq![a], b);
    lemma_kept_single(b);
    lemma_kept_push(seq![a, b], c);
    lemma_kept_single(c);
    assert(kept_comps(ps) =~= seq![Comp::Normal(a), Comp::Normal(b), Comp::Normal(c)]);
}

/// The directory of a day under `base` is read back as that day: what
/// `get_day` writes, `parse_date_from_path` reads.
pub proof fn lemma_day_path_round_trip(base: Seq<char>, y: i32, m: u32, d: u32)
    requires
        valid_ymd(y as int, m as int, d as int),
    ensures
        spec_parse_date(base, spec_join(base, date_dir_name(y as int, m as nat, d as nat)))
            == Some((y, m, d)),
{
    let ys = sign_padded(y as int, 4);
    let ms = zero_padded(m as nat, 2);
    let ds = zero_padded(d as nat, 2);
    lemma_sign_padded_plain(y as int);
    lemma_padded_plain(m as nat, 2);
    lemma_padded_plain(d as nat, 2);
    lemma_zero_padded(m as nat, 2);
    lemma_zero_padded(d as nat, 2);
    assert(ms.len() != 2 || ms[1] != '.') by {
        assert(is_ascii_digit(ms[1]));
    }
    assert(ds.len() != 2 || ds[1] != '.') by {
        assert(is_ascii_digit(ds[1]));
    }
    let name = date_dir_name(y as int, m as nat, d as nat);
    assert(name == ys + seq!['/'] + ms + seq!['/'] + ds);
    lemma_three_parts(ys, ms, ds);
    lemma_components_join(base, name);
    lemma_parse_sign_padded(y, 4);
    lemma_parse_zero_padded(m as nat, 2);
    lemma_parse_zero_padded(d as nat, 2);
    let pc = components(spec_join(base, name));
    let bc = components(base);
    let k = bc.len() as int;
    assert(pc == bc + seq![Comp::Normal(ys), Comp::Normal(ms), Comp::Normal(ds)]);
    assert(bc.is_prefix_of(pc)) by {
        assert(pc.subrange(0, k) =~= bc);
    }
    assert(pc[k] == Comp::Normal(ys));
    assert(pc[k + 1] == Comp::Normal(ms));
    assert(pc[k + 2] == Comp::Normal(ds));
}

/// The link that marks today's directory: `link` is to point at `target`.
#[derive(Debug)]
pub struct TodayLink {
    pub link: String,
    pub target: String,
}

/// A day's directory, and what is to be done on disk for it.
#[derive(Debug)]
pub struct DayDir {
    /// The day.
    pub date: Date,
    /// Its directory.
    pub path: String,
    /// Whether the directory is to be created, with its parents.
    pub create: bool,
    /// The link that is to point at it, for today's directory when directories are created.
    pub today_link: Option<TodayLink>,
}

/// The base directory that holds the year directories, and the current date.
#[derive(Debug)]
pub struct Bydate {
    basedir: String,
    today: Date,
}

impl Bydate {
    pub closed spec fn base(&self) -> Seq<char> {
        self.basedir@
    }

    pub closed spec fn today_date(&self) -> Date {
        self.today
    }

    pub open spec fn today_number(&self) -> int {
        self.today_date().number()
    }

    pub fn from_parts(basedir: String, today: Date) -> (r: Bydate)
        ensures
            r.base() == basedir@,
            r.today_date() == today,
    {
        Bydate { basedir, today }
    }

    pub fn basedir(&self) -> (r: &String)
        ensures
            r@ == self.base(),
    {
        &self.basedir
    }

    pub fn today(&self) -> (r: Date)
        ensures
            r == self.today_date(),
    {
        self.today
    }

    /// The directory of the day `offset_from_today` days from today. When
    /// `create_dirs`, it is to be created, and for today itself the `today`
    /// link in the base directory is to point at it.
    pub fn get_day(&self, offset_from_today: i32, create_dirs: bool) -> (r: DayDir)
        requires
            day_number_in_range(self.today_number() + offset_from_today),
        ensures
            r.date.number() == self.today_number() + offset_from_today,
            r.path@ == spec_join(
                self.base(),
                date_dir_name(r.date@.0 as int, r.date@.1 as nat, r.date@.2 as nat),
            ),
            r.path@ == day_path_of(self.base(), self.today_number() + offset_from_today),
            spec_parse_date(self.base(), r.path@) == Some(r.date@),
            r.create == create_dirs,
            r.today_link is Some <==> (create_dirs && offset_from_today == 0),
            r.today_link matches Some(l) ==> l.link@ == spec_join(self.base(), today_link_name())
                && l.target@ == date_dir_name(r.date@.0 as int, r.date@.1 as nat, r.date@.2 as nat),
    {
        let date = self.today.checked_add_days(offset_from_today).unwrap();
        let rel = date_dir(&date);
        let rel_s = string_of(&rel);
        let _ = date.year();
        proof {
            crate::calendar::lemma_date_dir_name_shape(date@.0, date@.1, date@.2);
            crate::calendar::lemma_date_of_number(date@);
            lemma_day_path_round_trip(self.base(), date@.0, date@.1, date@.2);
        }
        let path = join(self.basedir.as_str(), rel_s.as_str());
        let today_link = if create_dirs && offset_from_today == 0 {
            let name = "today";
            proof {
                reveal_strlit("today");
            }
            let link = join(self.basedir.as_str(), name);
            Some(TodayLink { link, target: rel_s })
        } else {
            None
        };
        DayDir { date, path, create: create_dirs, today_link }
    }

    /// Take the path to a date directory and parse the date it represents.
    /// Returns `None` if `path` isn't of the form `<basedir>/YYYY/MM/DD`.
    pub fn parse_date_from_path(&self, path: &str) -> (r: Option<Date>)
        ensures
            match r {
                Some(d) => spec_parse_date(self.base(), path@) == Some(d@),
                None => spec_parse_date(self.base(), path@) == None::<(i32, u32, u32)>,
            },
    {
        let pc = path_components(path);
        let bc = path_components(self.basedir.as_str());
        if !starts_with_components(&pc, &bc) {
            return None;
        }
        let k = bc.len();
        if pc.len() - k != 3 {
            return None;
        }
        let ghost pv = comps_view(pc@);
        assert(pv[k as int] == pc@[k as int]@);
        assert(pv[k + 1] == pc@[k + 1]@);
        assert(pv[k + 2] == pc@[k + 2]@);
        let year = component_parse_i32(&pc[k]);
        let month = component_parse_u32(&pc[k + 1]);
        let day = component_parse_u32(&pc[k + 2]);
        match (year, month, day) {
            (Some(y), Some(m), Some(d)) => Date::from_ymd_opt(y, m, d),
            _ => None,
        }
    }

    /// Of two candidates, the one that comes first in the order sought.
    fn pick(a: Option<Date>, b: Option<Date>, latest: bool) -> (r: Option<Date>)
        ensures
            date_view(r) == pick_view(date_view(a), date_view(b), latest),
    {
        match (a, b) {
            (None, _) => b,
            (_, None) => a,
            (Some(x), Some(y)) => {
                let first = if latest {
                    x.is_before(&y)
                } else {
                    y.is_before(&x)
                };
                if first {
                    b
                } else {
                    a
                }
            },
        }
    }

    /// The earliest (or latest) date of the directories among the numbered
    /// entries of `month`.
    fn month_extreme(&self, snap: &FsSnapshot, month: &String, latest: bool) -> (r: Option<Date>)
        ensures
            extreme_of(date_view(r), |t: (i32, u32, u32)| dated_in_month(snap@, self.base(), month@, t), latest),
    {
        let ghost base = self.base();
        let es = numeric_entries_in_dir(snap, month);
        let ghost ev = strings_view(es@);
        let mut best: Option<Date> = None;
        let n = es.len();
        for i in 0..n
            invariant
                n == es.len(),
                base == self.base(),
                ev == strings_view(es@),
                ev == spec_numeric_entries(snap@, month@),
                extreme_of(
                    date_view(best),
                    |t: (i32, u32, u32)| exists|k: int| 0 <= k < i && dated_path(snap@, base, #[trigger] ev[k], t),
                    latest,
                ),
        {
            assert(ev[i as int] == es@[i as int]@);
            let found = if path_is_dir(snap, &es[i]) {
                self.parse_date_from_path(es[i].as_str())
            } else {
                None
            };
            let ghost p = |t: (i32, u32, u32)| exists|k: int| 0 <= k < i && dated_path(snap@, base, #[trigger] ev[k], t);
            let ghost q = |t: (i32, u32, u32)| dated_path(snap@, base, ev[i as int], t);
            assert(extreme_of(date_view(found), q, latest));
            proof {
                lemma_pick_extreme(date_view(best), date_view(found), p, q, latest);
            }
            best = Self::pick(best, found, latest);
            let ghost pq = |t: (i32, u32, u32)| p(t) || q(t);
            let ghost next = |t: (i32, u32, u32)| exists|k: int| 0 <= k < i + 1 && dated_path(snap@, base, #[trigger] ev[k], t);
            assert forall|t: (i32, u32, u32)| #[trigger] next(t) == pq(t) by {
                if next(t) {
                    let k = choose|k: int| 0 <= k < i + 1 && dated_path(snap@, base, #[trigger] ev[k], t);
                    if k < i {
                        assert(p(t));
                    }
                }
            }
            assert(next =~= pq);
        }
        let ghost done = |t: (i32, u32, u32)| exists|k: int| 0 <= k < n && dated_path(snap@, base, #[trigger] ev[k], t);
        assert(done =~= |t: (i32, u32, u32)| dated_in_month(snap@, base, month@, t));
        best
    }

    /// The earliest (or latest) date of the directories under the numbered
    /// month entries of `year`.
    fn year_extreme(&self, snap: &FsSnapshot, year: &String, latest: bool) -> (r: Option<Date>)
        ensures
            extreme_of(date_view(r), |t: (i32, u32, u32)| dated_in_year(snap@, self.base(), year@, t), latest),
    {
        let ghost base = self.base();
        let es = numeric_entries_in_dir(snap, year);
        let ghost ev = strings_view(es@);
        let mut best: Option<Date> = None;
        let n = es.len();
        for i in 0..n
            invariant
                n == es.len(),
                base == self.base(),
                ev == strings_view(es@),
                ev == spec_numeric_entries(snap@, year@),
                extreme_of(
                    date_view(best),
                    |t: (i32, u32, u32)| exists|k: int| 0 <= k < i && dated_in_month(snap@, base, #[trigger] ev[k], t),
                    latest,
                ),
        {
            assert(ev[i as int] == es@[i as int]@);
            let found = self.month_extreme(snap, &es[i], latest);
            let ghost p = |t: (i32, u32, u32)| exists|k: int| 0 <= k < i && dated_in_month(snap@, base, #[trigger] ev[k], t);
            let ghost q = |t: (i32, u32, u32)| dated_in_month(snap@, base, ev[i as int], t);
            proof {
                lemma_pick_extreme(date_view(best), date_view(found), p, q, latest);
            }
            best = Self::pick(best, found, latest);
            let ghost pq = |t: (i32, u32, u32)| p(t) || q(t);
            let ghost next = |t: (i32, u32, u32)| exists|k: int| 0 <= k < i + 1 && dated_in_month(snap@, base, #[trigger] ev[k], t);
            assert forall|t: (i32, u32, u32)| #[trigger] next(t) == pq(t) by {
                if next(t) {
                    let k = choose|k: int| 0 <= k < i + 1 && dated_in_month(snap@, base, #[trigger] ev[k], t);
                    if k < i {
                        assert(p(t));
                    }
                }
            }
            assert(next =~= pq);
        }
        let ghost done = |t: (i32, u32, u32)| exists|k: int| 0 <= k < n && dated_in_month(snap@, base, #[trigger] ev[k], t);
        assert(done =~= |t: (i32, u32, u32)| dated_in_year(snap@, base, year@, t));
        best
    }

    /// The earliest (or latest) date of the directories `<base>/Y/M/D`.
    fn extreme_day(&self, snap: &FsSnapshot, latest: bool) -> (r: Option<Date>)
        ensures
            date_view(r) == spec_extreme_day(snap@, self.base(), latest),
    {
        let ghost base = self.base();
        let es = numeric_entries_in_dir(snap, &self.basedir);
        let ghost ev = strings_view(es@);
        let mut best: Option<Date> = None;
        let n = es.len();
        for i in 0..n
            invariant
                n == es.len(),
                base == self.base(),
                ev == strings_view(es@),
                ev == spec_numeric_entries(snap@, base),
                extreme_of(
                    date_view(best),
                    |t: (i32, u32, u32)| exists|k: int| 0 <= k < i && dated_in_year(snap@, base, #[trigger] ev[k], t),
                    latest,
                ),
        {
            assert(ev[i as int] == es@[i as int]@);
            let found = self.year_extreme(snap, &es[i], latest);
            let ghost p = |t: (i32, u32, u32)| exists|k: int| 0 <= k < i && dated_in_year(snap@, base, #[trigger] ev[k], t);
            let ghost q = |t: (i32, u32, u32)| dated_in_year(snap@, base, ev[i as int], t);
            proof {
                lemma_pick_extreme(date_view(best), date_view(found), p, q, latest);
            }
            best = Self::pick(best, found, latest);
            let ghost pq = |t: (i32, u32, u32)| p(t) || q(t);
            let ghost next = |t: (i32, u32, u32)| exists|k: int| 0 <= k < i + 1 && dated_in_year(snap@, base, #[trigger] ev[k], t);
            assert forall|t: (i32, u32, u32)| #[trigger] next(t) == pq(t) by {
                if next(t) {
                    let k = choose|k: int| 0 <= k < i + 1 && dated_in_year(snap@, base, #[trigger] ev[k], t);
                    if k < i {
                        assert(p(t));
                    }
                }
            }
            assert(next =~= pq);
        }
        let ghost done = |t: (i32, u32, u32)| exists|k: int| 0 <= k < n && dated_in_year(snap@, base, #[trigger] ev[k], t);
        assert(done =~= |t: (i32, u32, u32)| dated_day(snap@, base, t));
        proof {
            lemma_extreme_day_unique(snap@, base, date_view(best), latest);
        }
        best
    }

    /// Finds the earliest date represented by a directory under the basedir.
    pub fn min_day(&self, snap: &FsSnapshot) -> (r: Option<Date>)
        ensures
            date_view(r) == spec_min_day(snap@, self.base()),
    {
        self.extreme_day(snap, false)
    }

    /// Finds the latest date represented by a directory under the basedir.
    pub fn max_day(&self, snap: &FsSnapshot) -> (r: Option<Date>)
        ensures
            date_view(r) == spec_max_day(snap@, self.base()),
    {
        self.extreme_day(snap, true)
    }

    /// Returns the days from today through `offset_from_today` days before or
    /// after today (depending on its sign). If `only_extant_dirs` is set, then
    /// days that don't have directories are not included and are not counted.
    pub fn list_days(&self, snap: &FsSnapshot, offset_from_today: i32, only_extant_dirs: bool) -> (r:
        Vec<String>)
        requires
            list_days_defined(
                snap@,
                self.base(),
                self.today_number(),
                offset_from_today as int,
                only_extant_dirs,
            ),
        ensures
            strings_view(r@) == spec_list_days(
                snap@,
                self.base(),
                self.today_number(),
                offset_from_today as int,
                only_extant_dirs,
            ),
    {
        if !only_extant_dirs {
            return self.consecutive_day_paths(offset_from_today);
        }
        let lo = match self.min_day(snap) {
            Some(d) => d,
            None => {
                let days: Vec<String> = Vec::new();
                assert(strings_view(days@) =~= Seq::<Seq<char>>::empty());
                return days;
            },
        };
        let hi = match self.max_day(snap) {
            Some(d) => d,
            None => {
                let days: Vec<String> = Vec::new();
                assert(strings_view(days@) =~= Seq::<Seq<char>>::empty());
                return days;
            },
        };
        self.extant_day_paths(snap, offset_from_today, lo, hi)
    }

    /// The directories of the `|offset| + 1` days from today in the direction of `offset`.
    fn consecutive_day_paths(&self, offset_from_today: i32) -> (r: Vec<String>)
        requires
            count_for(offset_from_today as int) <= i32::MAX,
            day_number_in_range(self.today_number() + offset_from_today),
        ensures
            strings_view(r@) == consecutive_days(self.base(), self.today_number(), offset_from_today as int),
    {
        let mut days: Vec<String> = Vec::new();
        let _ = self.today.year();
        let ghost base = self.base();
        let ghost t = self.today_number();
        let ghost step = step_for(offset_from_today as int);
        let ghost count = count_for(offset_from_today as int);
        proof {
            crate::calendar::lemma_valid_in_range(self.today@.0 as int, self.today@.1 as int, self.today@.2 as int);
        }
        let mut count_remaining: i32 = if offset_from_today >= 0 {
            offset_from_today
        } else {
            -offset_from_today
        } + 1;
        let offset_delta: i32 = if offset_from_today >= 0 {
            1
        } else {
            -1
        };
        let mut current_offset: i32 = -offset_delta;
        let ghost mut k: int = 0;
        assert(strings_view(days@) =~= Seq::new(0, |i: int| day_path_of(base, t + step * i)));
        while count_remaining > 0
            invariant
                base == self.base(),
                t == self.today_number(),
                day_number_in_range(t),
                day_number_in_range(t + offset_from_today),
                step == step_for(offset_from_today as int),
                step == offset_delta as int,
                count == count_for(offset_from_today as int),
                count <= i32::MAX,
                0 <= k,
                current_offset == step * (k - 1),
                0 <= count_remaining <= count,
                days@.len() == count - count_remaining,
                k == days@.len(),
                strings_view(days@) == Seq::new(k as nat, |i: int| day_path_of(base, t + step * i)),
            decreases count_remaining,
        {
            current_offset = current_offset + offset_delta;
            proof {
                if step > 0 {
                    assert(t <= t + step * k <= t + offset_from_today);
                } else {
                    assert(t + offset_from_today <= t + step * k <= t);
                }
            }
            let dd = self.get_day(current_offset, false);
            let ghost before = days@;
            assert(dd.path@ == day_path_of(base, t + step * k));
            days.push(dd.path);
            count_remaining = count_remaining - 1;
            proof {
                assert(strings_view(days@) == strings_view(before).push(day_path_of(base, t + step * k)));
                assert(strings_view(days@) =~= Seq::new(
                    (k + 1) as nat,
                    |i: int| day_path_of(base, t + step * i),
                ));
                k = k + 1;
            }
        }
        assert(strings_view(days@) =~= consecutive_days(base, t, offset_from_today as int));
        days
    }

    /// The first `|offset| + 1` days from today, in the direction of
    /// `offset`, whose directory exists, walking while the days stay between
    /// `lo` and `hi`.
    #[verifier::spinoff_prover]
    #[verifier::rlimit(40)]
    fn extant_day_paths(&self, snap: &FsSnapshot, offset_from_today: i32, lo: Date, hi: Date) -> (r: Vec<String>)
        requires
            ({
                let t = self.today_number();
                let step = step_for(offset_from_today as int);
                let count = count_for(offset_from_today as int);
                let kk = window_steps(t, lo.number(), hi.number(), step);
                &&& count <= i32::MAX
                &&& (kk > 0 && existing_days(snap@, self.base(), t, step, kk as nat).len() < count)
                    ==> day_number_in_range(t + step * kk)
            }),
        ensures
            strings_view(r@) == extant_days(
                snap@,
                self.base(),
                self.today_number(),
                offset_from_today as int,
                lo.number(),
                hi.number(),
            ),
    {
        let mut days: Vec<String> = Vec::new();
        let _ = self.today.year();
        let _ = lo.year();
        let _ = hi.year();
        let ghost base = self.base();
        let ghost t = self.today_number();
        let ghost lo_n = lo.number();
        let ghost hi_n = hi.number();
        proof {
            crate::calendar::lemma_valid_in_range(self.today@.0 as int, self.today@.1 as int, self.today@.2 as int);
            crate::calendar::lemma_valid_in_range(lo@.0 as int, lo@.1 as int, lo@.2 as int);
            crate::calendar::lemma_valid_in_range(hi@.0 as int, hi@.1 as int, hi@.2 as int);
            assert(crate::calendar::last_day_number() - crate::calendar::first_day_number() < 0x7000_0000);
        }
        let ghost step = step_for(offset_from_today as int);
        let ghost count = count_for(offset_from_today as int);
        let ghost kk = window_steps(t, lo_n, hi_n, step);
        let mut count_remaining: i32 = if offset_from_today >= 0 {
            offset_from_today
        } else {
            -offset_from_today
        } + 1;
        let offset_delta: i32 = if offset_from_today >= 0 {
            1
        } else {
            -1
        };
        let mut current_offset: i32 = -offset_delta;
        let ghost mut k: int = 0;
        assert(strings_view(days@) =~= existing_days(snap@, base, t, step, 0));
        proof {
            lemma_existing_days_prefix(snap@, base, t, step, 0, kk as nat);
        }
        while count_remaining > 0
            invariant_except_break
                current_offset == step * (k - 1),
            invariant
                base == self.base(),
                t == self.today_number(),
                lo_n == lo.number(),
                hi_n == hi.number(),
                day_number_in_range(t),
                day_number_in_range(lo_n),
                day_number_in_range(hi_n),
                crate::calendar::last_day_number() - crate::calendar::first_day_number() < 0x7000_0000,
                (kk > 0 && existing_days(snap@, base, t, step, kk as nat).len() < count)
                    ==> day_number_in_range(t + step * kk),
                step == step_for(offset_from_today as int),
                step == offset_delta as int,
                count == count_for(offset_from_today as int),
                count <= i32::MAX,
                kk == window_steps(t, lo_n, hi_n, step),
                0 <= k <= kk,
                0 <= count_remaining <= count,
                days@.len() == count - count_remaining,
                strings_view(days@) == existing_days(snap@, base, t, step, k as nat),
                existing_days(snap@, base, t, step, kk as nat).take(days@.len() as int)
                    == strings_view(days@),
                existing_days(snap@, base, t, step, kk as nat).len() >= days@.len(),
            ensures
                strings_view(days@) == extant_days(snap@, base, t, offset_from_today as int, lo_n, hi_n),
            decreases count_remaining + kk + 1 - k,
        {
            assert(-0x7000_0000 <= step * k <= 0x7fff_ffff) by {
                assert(kk <= hi_n - lo_n + 1 || kk == 0);
                if step == 1 {
                    assert(step * k == k) by (nonlinear_arith) requires step == 1;
                } else {
                    assert(step * k == -k) by (nonlinear_arith) requires step == -1;
                }
            }
            assert(current_offset + offset_delta == step * k) by (nonlinear_arith)
                requires
                    current_offset == step * (k - 1),
                    step == offset_delta,
            ;
            current_offset = current_offset + offset_delta;
            proof {
                if k < kk {
                    if step == 1 {
                        assert(t + step * k == t + k) by (nonlinear_arith) requires step == 1;
                    } else {
                        assert(t + step * k == t - k) by (nonlinear_arith) requires step == -1;
                    }
                    assert(lo_n <= t + step * k <= hi_n);
                } else {
                    assert(existing_days(snap@, base, t, step, k as nat).len() < count);
                    if kk == 0 {
                        assert(t + step * k == t);
                    }
                }
            }
            let dd = self.get_day(current_offset, false);
            let day = dd.date;
            if day.is_before(&lo) || hi.is_before(&day) {
                proof {
                    assert(k == kk);
                    lemma_existing_days_prefix(snap@, base, t, step, k as nat, kk as nat);
                }
                break;
            }
            proof {
                assert(k < kk);
            }
            let ghost before = days@;
            if !path_exists(snap, &dd.path) {
                proof {
                    k = k + 1;
                    lemma_existing_days_prefix(snap@, base, t, step, k as nat, kk as nat);
                }
                continue;
            }
            days.push(dd.path);
            count_remaining = count_remaining - 1;
            proof {
                assert(strings_view(days@) == strings_view(before).push(day_path_of(base, t + step * k)));
                k = k + 1;
                lemma_existing_days_prefix(snap@, base, t, step, k as nat, kk as nat);
            }
        }
        days
    }

    /// Whether `list_days` can list these days: its count `|offset| + 1` fits
    /// in `i32`, and its walk reaches no day out of the calendar's range.
    pub fn list_days_is_defined(&self, snap: &FsSnapshot, offset_from_today: i32, only_extant_dirs: bool) -> (r: bool)
        ensures
            r == list_days_defined(
                snap@,
                self.base(),
                self.today_number(),
                offset_from_today as int,
                only_extant_dirs,
            ),
    {
        if !only_extant_dirs {
            if offset_from_today < -2147483646 || offset_from_today > 2147483646 {
                return false;
            }
            return self.today.checked_add_days(offset_from_today).is_some();
        }
        let lo = match self.min_day(snap) {
            Some(d) => d,
            None => return true,
        };
        let hi = match self.max_day(snap) {
            Some(d) => d,
            None => return true,
        };
        if offset_from_today < -2147483646 || offset_from_today > 2147483646 {
            return false;
        }
        let _ = self.today.year();
        let _ = lo.year();
        let _ = hi.year();
        let ghost base = self.base();
        let ghost t = self.today_number();
        let ghost lo_n = lo.number();
        let ghost hi_n = hi.number();
        proof {
            crate::calendar::lemma_valid_in_range(self.today@.0 as int, self.today@.1 as int, self.today@.2 as int);
            crate::calendar::lemma_valid_in_range(lo@.0 as int, lo@.1 as int, lo@.2 as int);
            crate::calendar::lemma_valid_in_range(hi@.0 as int, hi@.1 as int, hi@.2 as int);
            assert(crate::calendar::last_day_number() - crate::calendar::first_day_number() < 0x7000_0000);
        }
        let ghost step = step_for(offset_from_today as int);
        let ghost kk = window_steps(t, lo_n, hi_n, step);
        if self.today.is_before(&lo) || hi.is_before(&self.today) {
            return true;
        }
        let count: i32 = if offset_from_today >= 0 {
            offset_from_today
        } else {
            -offset_from_today
        } + 1;
        let delta: i32 = if offset_from_today >= 0 {
            1
        } else {
            -1
        };
        let last = if delta > 0 {
            hi
        } else {
            lo
        };
        proof {
            if delta > 0 {
                assert(t + step * kk == hi_n + 1);
            } else {
                assert(t + step * kk == lo_n - 1);
            }
        }
        let edge = last.checked_add_days(delta);
        if edge.is_some() {
            return true;
        }
        let mut found: i32 = 0;
        let mut current_offset: i32 = 0;
        let ghost mut k: int = 0;
        assert(existing_days(snap@, base, t, step, 0).len() == 0);
        loop
            invariant
                base == self.base(),
                t == self.today_number(),
                lo_n == lo.number(),
                hi_n == hi.number(),
                last.number() == (if delta > 0 { hi_n } else { lo_n }),
                lo_n <= t <= hi_n,
                day_number_in_range(lo_n),
                day_number_in_range(hi_n),
                !day_number_in_range(t + step * kk),
                crate::calendar::last_day_number() - crate::calendar::first_day_number() < 0x7000_0000,
                spec_min_day(snap@, base) == Some(lo@),
                spec_max_day(snap@, base) == Some(hi@),
                step == step_for(offset_from_today as int),
                step == delta as int,
                count == count_for(offset_from_today as int),
                -2147483646 <= offset_from_today <= 2147483646,
                only_extant_dirs,
                kk == window_steps(t, lo_n, hi_n, step),
                0 <= k < kk,
                current_offset == step * k,
                0 <= found < count,
                found == existing_days(snap@, base, t, step, k as nat).len(),
            decreases kk - k,
        {
            let dd = self.get_day(current_offset, false);
            let ghost before = existing_days(snap@, base, t, step, k as nat);
            if path_exists(snap, &dd.path) {
                found = found + 1;
            }
            assert(found == existing_days(snap@, base, t, step, (k + 1) as nat).len());
            if found >= count {
                proof {
                    lemma_existing_days_prefix(snap@, base, t, step, (k + 1) as nat, kk as nat);
                }
                return true;
            }
            if dd.date == last {
                proof {
                    crate::calendar::lemma_date_of_number(dd.date@);
                    assert(k + 1 == kk);
                }
                return false;
            }
            let _ = dd.date.year();
            let _ = last.year();
            proof {
                if dd.date.number() == last.number() {
                    crate::calendar::lemma_date_of_number(dd.date@);
                    crate::calendar::lemma_date_of_number(last@);
                    dd.date.lemma_view_injective(last);
                }
                if delta > 0 {
                    assert(t + step * (kk - 1) == hi_n);
                } else {
                    assert(t + step * (kk - 1) == lo_n);
                }
            }
            current_offset = current_offset + delta;
            proof {
                k = k + 1;
            }
        }
    }
}

} // verus!
