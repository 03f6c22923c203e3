//! The command line: `today [+-N] [--no-create-dirs]`, `yesterday`,
//! `tomorrow` and `days +-N [--extant-dirs]`.
use vstd::prelude::*;
use crate::entries::strings_view;
use crate::numbers::{is_plus_or_minus_int, parse_i32, spec_parse_i32};
use crate::text::str_equals;

verus! {

/// What the command line asks for.
#[derive(Debug, Clone, Copy, PartialEq, Eq, Structural)]
pub enum Command {
    /// The directory of one day.
    Day { offset_from_today: i32, create_dirs: bool },
    /// The directories of a run of days.
    Days { offset_from_today: i32, only_extant_dirs: bool },
}

pub open spec fn today_word() -> Seq<char> {
    seq!['t', 'o', 'd', 'a', 'y']
}

pub open spec fn yesterday_word() -> Seq<char> {
    seq!['y', 'e', 's', 't', 'e', 'r', 'd', 'a', 'y']
}

pub open spec fn tomorrow_word() -> Seq<char> {
    seq!['t', 'o', 'm', 'o', 'r', 'r', 'o', 'w']
}

pub open spec fn days_word() -> Seq<char> {
    seq!['d', 'a', 'y', 's']
}

pub open spec fn no_create_dirs_flag() -> Seq<char> {
    seq!['-', '-', 'n', 'o', '-', 'c', 'r', 'e', 'a', 't', 'e', '-', 'd', 'i', 'r', 's']
}

pub open spec fn extant_dirs_flag() -> Seq<char> {
    seq!['-', '-', 'e', 'x', 't', 'a', 'n', 't', '-', 'd', 'i', 'r', 's']
}

/// An offset argument: a decimal integer with a leading `+` or `-` that fits in `i32`.
pub open spec fn is_offset_arg(a: Seq<char>) -> bool {
    a.len() > 0 && (a[0] == '+' || a[0] == '-') && spec_parse_i32(a) is Some
}

/// Each option is `flag` or an offset, `flag` comes at most once and so does an offset.
pub open spec fn options_ok(opts: Seq<Seq<char>>, flag: Seq<char>) -> bool {
    &&& forall|i: int| 0 <= i < opts.len() ==> opts[i] == flag || is_offset_arg(opts[i])
    &&& forall|i: int, j: int|
        0 <= i < j < opts.len() ==> !(opts[i] == flag && opts[j] == flag)
    &&& forall|i: int, j: int|
        0 <= i < j < opts.len() ==> !(is_offset_arg(opts[i]) && is_offset_arg(opts[j]))
}

pub open spec fn has_flag(opts: Seq<Seq<char>>, flag: Seq<char>) -> bool {
    exists|i: int| 0 <= i < opts.len() && opts[i] == flag
}

pub open spec fn has_offset(opts: Seq<Seq<char>>) -> bool {
    exists|i: int| 0 <= i < opts.len() && is_offset_arg(opts[i])
}

/// The value of the offset among `opts`.
pub open spec fn offset_value(opts: Seq<Seq<char>>) -> i32 {
    let i = choose|i: int| 0 <= i < opts.len() && is_offset_arg(opts[i]);
    spec_parse_i32(opts[i])->0
}

/// What the command line `args` (the program's name first) asks for.
pub open spec fn spec_parse_args(args: Seq<Seq<char>>) -> Option<Command> {
    if args.len() < 2 {
        None
    } else {
        let cmd = args[1];
        let opts = args.subrange(2, args.len() as int);
        if cmd == today_word() {
            if options_ok(opts, no_create_dirs_flag()) {
                Some(
                    Command::Day {
                        offset_from_today: if has_offset(opts) {
                            offset_value(opts)
                        } else {
                            0i32
                        },
                        create_dirs: !has_flag(opts, no_create_dirs_flag()),
                    },
                )
            } else {
                None
            }
        } else if cmd == yesterday_word() {
            Some(Command::Day { offset_from_today: -1i32, create_dirs: true })
        } else if cmd == tomorrow_word() {
            Some(Command::Day { offset_from_today: 1i32, create_dirs: true })
        } else if cmd == days_word() {
            if options_ok(opts, extant_dirs_flag()) && has_offset(opts) {
                Some(
                    Command::Days {
                        offset_from_today: offset_value(opts),
                        only_extant_dirs: has_flag(opts, extant_dirs_flag()),
                    },
                )
            } else {
                None
            }
        } else {
            None
        }
    }
}

/// Reads the options after the command word: each is `flag` or an offset,
/// each at most once. Gives the offset, if any, and whether `flag` came.
fn parse_options(args: &Vec<String>, flag: &str) -> (r: Option<(Option<i32>, bool)>)
    requires
        args.len() >= 2,
        !is_offset_arg(flag@),
    ensures
        ({
            let opts = strings_view(args@).subrange(2, args.len() as int);
            match r {
                Some((off, seen)) => {
                    &&& options_ok(opts, flag@)
                    &&& seen == has_flag(opts, flag@)
                    &&& (off is Some <==> has_offset(opts))
                    &&& off matches Some(v) ==> v == offset_value(opts)
                },
                None => !options_ok(opts, flag@),
            }
        }),
{
    let ghost all = strings_view(args@);
    let ghost opts = all.subrange(2, args.len() as int);
    let n = args.len();
    let mut offset: Option<i32> = None;
    let mut seen = false;
    let ghost mut at: int = 0;
    for i in 2..n
        invariant
            n == args.len(),
            all == strings_view(args@),
            opts == all.subrange(2, n as int),
            !is_offset_arg(flag@),
            options_ok(opts.take(i - 2), flag@),
            seen == has_flag(opts.take(i - 2), flag@),
            offset is Some <==> has_offset(opts.take(i - 2)),
            offset matches Some(v) ==> 0 <= at < i - 2 && is_offset_arg(opts[at])
                && spec_parse_i32(opts[at]) == Some(v),
    {
        let ghost pre = opts.take(i - 2);
        let ghost cur = opts.take(i - 1);
        let ghost k = i - 2;
        assert(opts[k] == args@[i as int]@);
        assert(cur == pre.push(opts[k]));
        let a = args[i].as_str();
        if !seen && str_equals(a, flag) {
            seen = true;
            assert(cur[k] == flag@);
            assert(options_ok(cur, flag@)) by {
                assert forall|p: int, q: int| 0 <= p < q < cur.len() implies !(cur[p] == flag@
                    && cur[q] == flag@) by {
                    if q == k && cur[p] == flag@ {
                        assert(pre[p] == flag@);
                    }
                }
            }
            assert(has_flag(cur, flag@));
            assert(has_offset(cur) == has_offset(pre)) by {
                if has_offset(cur) {
                    let w = choose|w: int| 0 <= w < cur.len() && is_offset_arg(cur[w]);
                    assert(w < k);
                    assert(pre[w] == cur[w]);
                }
            }
        } else if offset.is_none() && is_plus_or_minus_int(a) {
            offset = Some(parse_i32(a).unwrap());
            proof {
                at = k;
            }
            assert(is_offset_arg(cur[k]));
            assert(options_ok(cur, flag@)) by {
                assert forall|p: int, q: int| 0 <= p < q < cur.len() implies !(is_offset_arg(cur[p])
                    && is_offset_arg(cur[q])) by {
                    if q == k && is_offset_arg(cur[p]) {
                        assert(pre[p] == cur[p]);
                    }
                }
                assert forall|p: int, q: int| 0 <= p < q < cur.len() implies !(cur[p] == flag@
                    && cur[q] == flag@) by {
                    if q == k {
                    } else {
                        assert(pre[p] == cur[p] && pre[q] == cur[q]);
                    }
                }
                assert forall|p: int| 0 <= p < cur.len() implies cur[p] == flag@ || is_offset_arg(
                    cur[p],
                ) by {
                    if p < k {
                        assert(pre[p] == cur[p]);
                    }
                }
            }
            assert(has_offset(cur));
            assert(seen == has_flag(cur, flag@)) by {
                if has_flag(cur, flag@) {
                    let w = choose|w: int| 0 <= w < cur.len() && cur[w] == flag@;
                    if w == k {
                        assert(is_offset_arg(flag@));
                    }
                    assert(pre[w] == cur[w]);
                }
            }
        } else {
            proof {
                assert(opts.take(i - 1) =~= cur);
                if cur[k] == flag@ {
                    let w = choose|w: int| 0 <= w < pre.len() && pre[w] == flag@;
                    assert(opts[w] == flag@ && opts[k] == flag@);
                } else if is_offset_arg(cur[k]) {
                    assert(opts[at] == pre[at]);
                    assert(is_offset_arg(opts[at]) && is_offset_arg(opts[k]));
                } else {
                    assert(!(opts[k] == flag@ || is_offset_arg(opts[k])));
                }
            }
            return None;
        }
        proof {
            assert forall|p: int| 0 <= p < cur.len() implies cur[p] == flag@ || is_offset_arg(
                cur[p],
            ) by {
                if p < k {
                    assert(pre[p] == cur[p]);
                }
            }
            if offset is Some {
                assert(pre.len() <= at || pre[at] == cur[at]);
            }
        }
    }
    assert(opts.take(n - 2) == opts);
    proof {
        if offset is Some {
            let c = choose|c: int| 0 <= c < opts.len() && is_offset_arg(opts[c]);
            if c != at {
                if c < at {
                    assert(!(is_offset_arg(opts[c]) && is_offset_arg(opts[at])));
                } else {
                    assert(!(is_offset_arg(opts[at]) && is_offset_arg(opts[c])));
                }
            }
        }
    }
    Some((offset, seen))
}

/// Parses the command line `args`, the program's name first:
///     bydate today [+-N] [--no-create-dirs]
///     bydate yesterday  =  bydate today -1
///     bydate tomorrow  =  bydate today +1
///     bydate days +-N [--extant-dirs]
pub fn parse_args(args: &Vec<String>) -> (r: Option<Command>)
    ensures
        r == spec_parse_args(strings_view(args@)),
{
    proof {
        reveal_strlit("today");
        reveal_strlit("yesterday");
        reveal_strlit("tomorrow");
        reveal_strlit("days");
        reveal_strlit("--no-create-dirs");
        reveal_strlit("--extant-dirs");
        assert("today"@ =~= today_word());
        assert("yesterday"@ =~= yesterday_word());
        assert("tomorrow"@ =~= tomorrow_word());
        assert("days"@ =~= days_word());
        assert("--no-create-dirs"@ =~= no_create_dirs_flag());
        assert("--extant-dirs"@ =~= extant_dirs_flag());
    }
    if args.len() < 2 {
        return None;
    }
    let ghost all = strings_view(args@);
    assert(all[1] == args@[1]@);
    let cmd = args[1].as_str();
    if str_equals(cmd, "today") {
        assert(!is_offset_arg(no_create_dirs_flag())) by {
            assert(no_create_dirs_flag()[0] == '-');
            assert(no_create_dirs_flag().drop_first()[0] == '-');
        }
        match parse_options(args, "--no-create-dirs") {
            Some((offset, seen)) => {
                let offset_from_today = match offset {
                    Some(v) => v,
                    None => 0,
                };
                Some(Command::Day { offset_from_today, create_dirs: !seen })
            },
            None => None,
        }
    } else if str_equals(cmd, "yesterday") {
        Some(Command::Day { offset_from_today: -1i32, create_dirs: true })
    } else if str_equals(cmd, "tomorrow") {
        Some(Command::Day { offset_from_today: 1i32, create_dirs: true })
    } else if str_equals(cmd, "days") {
        assert(!is_offset_arg(extant_dirs_flag())) by {
            assert(extant_dirs_flag().drop_first()[0] == '-');
        }
        match parse_options(args, "--extant-dirs") {
            Some((Some(v), seen)) => Some(Command::Days { offset_from_today: v, only_extant_dirs: seen }),
            _ => None,
        }
    } else {
        None
    }
}

/// `bydate yesterday` asks for what `bydate today -1` asks for, and
/// `bydate tomorrow` for what `bydate today +1` asks for.
pub proof fn lemma_yesterday_tomorrow(prog: Seq<char>)
    ensures
        spec_parse_args(seq![prog, yesterday_word()]) == spec_parse_args(
            seq![prog, today_word(), seq!['-', '1']],
        ),
        spec_parse_args(seq![prog, tomorrow_word()]) == spec_parse_args(
            seq![prog, today_word(), seq!['+', '1']],
        ),
{
    let one = seq!['1'];
    assert(seq!['-', '1'].drop_first() == one);
    assert(seq!['+', '1'].drop_first() == one);
    assert(one.drop_last() == Seq::<char>::empty());
    assert(crate::numbers::decimal_value(Seq::<char>::empty()) == 0);
    assert(crate::numbers::decimal_value(one) == 1);
    assert(crate::numbers::all_ascii_digits(one));
    assert(crate::numbers::without_plus(seq!['+', '1']) == one);
    lemma_single_offset(prog, seq!['-', '1']);
    lemma_single_offset(prog, seq!['+', '1']);
    assert(yesterday_word() != today_word()) by {
        assert(yesterday_word().len() != today_word().len());
    }
    assert(tomorrow_word() != today_word()) by {
        assert(tomorrow_word()[2] != today_word()[2]);
    }
    assert(tomorrow_word() != yesterday_word()) by {
        assert(tomorrow_word().len() != yesterday_word().len());
    }
}

proof fn lemma_single_offset(prog: Seq<char>, a: Seq<char>)
    requires
        is_offset_arg(a),
        a.len() == 2,
    ensures
        spec_parse_args(seq![prog, today_word(), a]) == Some(
            Command::Day { offset_from_today: spec_parse_i32(a)->0, create_dirs: true },
        ),
{
    let args = seq![prog, today_word(), a];
    let opts = args.subrange(2, 3);
    assert(opts =~= seq![a]);
    assert(opts[0] != no_create_dirs_flag()) by {
        assert(no_create_dirs_flag().len() != 2);
    }
    assert(has_offset(opts)) by {
        assert(is_offset_arg(opts[0]));
    }
    assert(!has_flag(opts, no_create_dirs_flag()));
    assert(offset_value(opts) == spec_parse_i32(a)->0);
}

/// The options after `today` or `days` may come in either order.
pub proof fn lemma_option_order(prog: Seq<char>, cmd: Seq<char>, a: Seq<char>, b: Seq<char>)
    ensures
        spec_parse_args(seq![prog, cmd, a, b]) == spec_parse_args(seq![prog, cmd, b, a]),
{
    let x = seq![prog, cmd, a, b].subrange(2, 4);
    let y = seq![prog, cmd, b, a].subrange(2, 4);
    assert(x =~= seq![a, b]);
    assert(y =~= seq![b, a]);
    assert forall|f: Seq<char>| options_ok(x, f) == options_ok(y, f) by {
        if options_ok(x, f) {
            assert(x[0] == f || is_offset_arg(x[0]));
            assert(x[1] == f || is_offset_arg(x[1]));
            assert(!(x[0] == f && x[1] == f));
            assert(!(is_offset_arg(x[0]) && is_offset_arg(x[1])));
        }
        if options_ok(y, f) {
            assert(y[0] == f || is_offset_arg(y[0]));
            assert(y[1] == f || is_offset_arg(y[1]));
            assert(!(y[0] == f && y[1] == f));
            assert(!(is_offset_arg(y[0]) && is_offset_arg(y[1])));
        }
    }
    assert forall|f: Seq<char>| has_flag(x, f) == has_flag(y, f) by {
        if has_flag(x, f) {
            let i = choose|i: int| 0 <= i < x.len() && x[i] == f;
            assert(y[1 - i] == f);
        }
        if has_flag(y, f) {
            let i = choose|i: int| 0 <= i < y.len() && y[i] == f;
            assert(x[1 - i] == f);
        }
    }
    assert(has_offset(x) == has_offset(y)) by {
        if has_offset(x) {
            let i = choose|i: int| 0 <= i < x.len() && is_offset_arg(x[i]);
            assert(is_offset_arg(y[1 - i]));
        }
        if has_offset(y) {
            let i = choose|i: int| 0 <= i < y.len() && is_offset_arg(y[i]);
            assert(is_offset_arg(x[1 - i]));
        }
    }
    assert forall|f: Seq<char>| options_ok(x, f) && has_offset(x) implies offset_value(x)
        == offset_value(y) by {
        let i = choose|i: int| 0 <= i < x.len() && is_offset_arg(x[i]);
        let j = choose|j: int| 0 <= j < y.len() && is_offset_arg(y[j]);
        assert(is_offset_arg(y[1 - i]));
        if j != 1 - i {
            assert(is_offset_arg(x[1 - j]));
            assert(!(is_offset_arg(x[0]) && is_offset_arg(x[1])));
        }
    }
}

} // verus!
