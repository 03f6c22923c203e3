//! Unix paths held as strings: their components, file name, prefixes and joins,
//! with the meaning that `std::path::Path` gives them.
use vstd::prelude::*;
use crate::numbers::{parse_digits, spec_parse_digits};
use crate::text::{chars_of, string_of};

verus! {

/// One component of a path, as `std::path::Component` names it on Unix.
#[derive(Debug)]
pub enum PathComponent {
    RootDir,
    CurDir,
    ParentDir,
    Normal(String),
}

/// The mathematical form of a `PathComponent`.
pub enum Comp {
    Root,
    Cur,
    Parent,
    Normal(Seq<char>),
}

impl View for PathComponent {
    type V = Comp;

    open spec fn view(&self) -> Comp {
        match self {
            PathComponent::RootDir => Comp::Root,
            PathComponent::CurDir => Comp::Cur,
            PathComponent::ParentDir => Comp::Parent,
            PathComponent::Normal(s) => Comp::Normal(s@),
        }
    }
}

pub open spec fn comps_view(v: Seq<PathComponent>) -> Seq<Comp> {
    v.map_values(|c: PathComponent| c@)
}

/// The pieces of `s` between `/` separators, empty ones included:
/// `""` has one empty piece, `"/a"` has `""` and `"a"`.
pub open spec fn pieces(s: Seq<char>) -> Seq<Seq<char>>
    decreases s.len(),
{
    if s.len() == 0 {
        seq![Seq::<char>::empty()]
    } else {
        let before = pieces(s.drop_last());
        if s.last() == '/' {
            before.push(Seq::<char>::empty())
        } else {
            before.update(before.len() - 1, before.last().push(s.last()))
        }
    }
}

/// The component that a non-empty piece other than `.` stands for.
pub open spec fn piece_comp(p: Seq<char>) -> Comp {
    if p == seq!['.', '.'] {
        Comp::Parent
    } else {
        Comp::Normal(p)
    }
}

/// Empty pieces and `.` pieces carry no component.
pub open spec fn piece_kept(p: Seq<char>) -> bool {
    p.len() > 0 && p != seq!['.']
}

/// The components that a run of pieces stands for, in order.
pub open spec fn kept_comps(ps: Seq<Seq<char>>) -> Seq<Comp>
    decreases ps.len(),
{
    if ps.len() == 0 {
        Seq::empty()
    } else {
        let before = kept_comps(ps.drop_last());
        if piece_kept(ps.last()) {
            before.push(piece_comp(ps.last()))
        } else {
            before
        }
    }
}

/// The component that the start of `s` stands for: the root for a leading `/`,
/// `.` for a path that is `.` or starts with `./`.
pub open spec fn lead_comps(s: Seq<char>) -> Seq<Comp> {
    if s.len() > 0 && s[0] == '/' {
        seq![Comp::Root]
    } else if s.len() > 0 && s[0] == '.' && (s.len() == 1 || s[1] == '/') {
        seq![Comp::Cur]
    } else {
        Seq::empty()
    }
}

/// What `Path::components` yields for `s` on Unix: repeated separators and `.`
/// are normalised away, but for a leading `.` in a relative path.
pub open spec fn components(s: Seq<char>) -> Seq<Comp> {
    lead_comps(s) + kept_comps(pieces(s))
}

/// What `Path::file_name` gives: the last component when it is a normal one.
pub open spec fn spec_file_name(s: Seq<char>) -> Option<Seq<char>> {
    let c = components(s);
    if c.len() > 0 && c.last() is Normal {
        Some(c.last()->Normal_0)
    } else {
        None
    }
}

/// The number that the file name of `s` is, when that name is a non-empty
/// string of ASCII digits whose value fits in `u32`.
pub open spec fn spec_file_name_as_number(s: Seq<char>) -> Option<u32> {
    match spec_file_name(s) {
        Some(n) => spec_parse_digits(n),
        None => None,
    }
}

/// What `PathBuf::push` does on Unix with a path `rel` that is not absolute:
/// a `/` goes between the two unless `base` is empty or already ends in one.
pub open spec fn spec_join(base: Seq<char>, rel: Seq<char>) -> Seq<char> {
    if base.len() > 0 && base.last() != '/' {
        base + seq!['/'] + rel
    } else {
        base + rel
    }
}

proof fn lemma_pieces_take_step(s: Seq<char>, i: int)
    requires
        0 <= i < s.len(),
    ensures
        pieces(s.take(i + 1)) == (if s[i] == '/' {
            pieces(s.take(i)).push(Seq::<char>::empty())
        } else {
            let b = pieces(s.take(i));
            b.update(b.len() - 1, b.last().push(s[i]))
        }),
{
    assert(s.take(i + 1).drop_last() == s.take(i));
}

pub proof fn lemma_pieces_nonempty(s: Seq<char>)
    ensures
        pieces(s).len() >= 1,
    decreases s.len(),
{
    if s.len() > 0 {
        lemma_pieces_nonempty(s.drop_last());
    }
}

fn push_piece(out: &mut Vec<PathComponent>, piece: &Vec<char>)
    ensures
        comps_view(final(out)@) == comps_view(old(out)@) + kept_comps(seq![piece@]),
{
    proof {
        lemma_kept_single(piece@);
    }
    let n = piece.len();
    let is_dot = n == 1 && piece[0] == '.';
    let is_dotdot = n == 2 && piece[0] == '.' && piece[1] == '.';
    if n == 0 || is_dot {
        proof {
            if n == 1 && is_dot {
                assert(piece@ == seq!['.']);
            }
        }
        assert(comps_view(out@) == comps_view(out@) + Seq::<Comp>::empty());
    } else {
        let ghost pre = out@;
        proof {
            if !is_dot && n == 1 {
                assert(piece@ != seq!['.'] ) by {
                    if piece@ == seq!['.'] {
                        assert(piece@[0] == '.');
                    }
                }
            }
        }
        if is_dotdot {
            assert(piece@ == seq!['.', '.']);
            out.push(PathComponent::ParentDir);
        } else {
            assert(piece@ != seq!['.', '.']) by {
                if piece@ == seq!['.', '.'] {
                    assert(piece@[0] == '.' && piece@[1] == '.');
                }
            }
            let name = string_of(piece);
            out.push(PathComponent::Normal(name));
        }
        assert(comps_view(out@) == comps_view(pre).push(piece_comp(piece@)));
    }
}

/// The components of `path`, as `Path::components` yields them on Unix.
pub fn path_components(path: &str) -> (r: Vec<PathComponent>)
    ensures
        comps_view(r@) == components(path@),
{
    let v = chars_of(path);
    let n = v.len();
    let mut out: Vec<PathComponent> = Vec::new();
    if n > 0 && v[0] == '/' {
        out.push(PathComponent::RootDir);
    } else if n > 0 && v[0] == '.' && (n == 1 || v[1] == '/') {
        out.push(PathComponent::CurDir);
    }
    assert(comps_view(out@) == lead_comps(v@));
    let mut cur: Vec<char> = Vec::new();
    assert(v@.take(0) == Seq::<char>::empty());
    for i in 0..n
        invariant
            n == v.len(),
            pieces(v@.take(i as int)).len() >= 1,
            cur@ == pieces(v@.take(i as int)).last(),
            comps_view(out@) == lead_comps(v@) + kept_comps(
                pieces(v@.take(i as int)).drop_last(),
            ),
    {
        let ghost before = pieces(v@.take(i as int));
        proof {
            lemma_pieces_take_step(v@, i as int);
        }
        if v[i] == '/' {
            push_piece(&mut out, &cur);
            proof {
                let after = before.push(Seq::<char>::empty());
                assert(after.drop_last() == before);
                assert(before.drop_last().push(before.last()) == before);
                lemma_kept_push(before.drop_last(), before.last());
            }
            cur = Vec::new();
        } else {
            cur.push(v[i]);
            proof {
                let after = before.update(before.len() - 1, before.last().push(v@[i as int]));
                assert(after.drop_last() == before.drop_last());
            }
        }
    }
    assert(v@.take(n as int) == v@);
    let ghost all = pieces(v@);
    push_piece(&mut out, &cur);
    proof {
        assert(all.drop_last().push(all.last()) == all);
        lemma_kept_push(all.drop_last(), all.last());
    }
    out
}


fn component_eq(a: &PathComponent, b: &PathComponent) -> (r: bool)
    ensures
        r == (a@ == b@),
{
    let mut r = false;
    if let PathComponent::Normal(x) = a {
        if let PathComponent::Normal(y) = b {
            r = *x == *y;
        }
    } else if let PathComponent::RootDir = a {
        if let PathComponent::RootDir = b {
            r = true;
        }
    } else if let PathComponent::CurDir = a {
        if let PathComponent::CurDir = b {
            r = true;
        }
    } else {
        if let PathComponent::ParentDir = b {
            r = true;
        }
    }
    r
}

/// Whether the first `b.len()` components of `p` are those of `b`.
pub fn starts_with_components(p: &Vec<PathComponent>, b: &Vec<PathComponent>) -> (r: bool)
    ensures
        r == comps_view(b@).is_prefix_of(comps_view(p@)),
{
    if b.len() > p.len() {
        return false;
    }
    let n = b.len();
    for i in 0..n
        invariant
            n == b.len(),
            n <= p.len(),
            forall|j: int| 0 <= j < i ==> comps_view(b@)[j] == comps_view(p@)[j],
    {
        if !component_eq(&p[i], &b[i]) {
            assert(comps_view(b@)[i as int] != comps_view(p@)[i as int]);
            return false;
        }
    }
    assert(comps_view(b@) =~= comps_view(p@).subrange(0, n as int));
    true
}

/// Whether `a` and `b` name the same path, as `Path`'s `==` decides it:
/// by their components.
pub fn same_path(a: &str, b: &str) -> (r: bool)
    ensures
        r == (components(a@) == components(b@)),
{
    let ca = path_components(a);
    let cb = path_components(b);
    let same = ca.len() == cb.len() && starts_with_components(&ca, &cb);
    proof {
        if same {
            assert(comps_view(ca@) =~= comps_view(cb@));
        }
        if comps_view(ca@) == comps_view(cb@) {
            assert(comps_view(ca@).len() == ca@.len());
            assert(comps_view(cb@).len() == cb@.len());
            assert(comps_view(ca@).subrange(0, comps_view(cb@).len() as int) =~= comps_view(cb@));
        }
    }
    same
}

/// The file name of `path`, as `Path::file_name` gives it.
pub fn file_name(path: &str) -> (r: Option<String>)
    ensures
        match r {
            Some(n) => spec_file_name(path@) == Some(n@),
            None => spec_file_name(path@) == None::<Seq<char>>,
        },
{
    let c = path_components(path);
    let n = c.len();
    if n == 0 {
        return None;
    }
    assert(comps_view(c@).last() == c@[n - 1]@);
    match &c[n - 1] {
        PathComponent::Normal(name) => Some(name.clone()),
        _ => None,
    }
}

/// If the file name component of a path is a string of digits, convert it to a number.
pub fn file_name_as_number(path: &str) -> (r: Option<u32>)
    ensures
        r == spec_file_name_as_number(path@),
{
    match file_name(path) {
        Some(name) => parse_digits(name.as_str()),
        None => None,
    }
}

/// Checks whether the file name component of a path is a number.
pub fn file_name_is_number(path: &str) -> (b: bool)
    ensures
        b == (spec_file_name_as_number(path@) is Some),
{
    file_name_as_number(path).is_some()
}

/// `base` joined with the relative path `rel`, as `Path::join` does it on Unix.
pub fn join(base: &str, rel: &str) -> (r: String)
    requires
        rel@.len() == 0 || rel@[0] != '/',
    ensures
        r@ == spec_join(base@, rel@),
{
    let mut v = chars_of(base);
    let w = chars_of(rel);
    if v.len() > 0 && v[v.len() - 1] != '/' {
        v.push('/');
    }
    let ghost start = v@;
    let n = w.len();
    for i in 0..n
        invariant
            n == w.len(),
            v@ == start + w@.take(i as int),
    {
        v.push(w[i]);
        assert(w@.take(i + 1) == w@.take(i as int).push(w@[i as int]));
    }
    assert(w@.take(n as int) == w@);
    string_of(&v)
}

pub proof fn lemma_kept_single(p: Seq<char>)
    ensures
        kept_comps(seq![p]) == (if piece_kept(p) {
            seq![piece_comp(p)]
        } else {
            Seq::<Comp>::empty()
        }),
{
    let q = seq![p];
    assert(q.drop_last() == Seq::<Seq<char>>::empty());
    assert(kept_comps(q.drop_last()) == Seq::<Comp>::empty());
}

pub proof fn lemma_kept_push(ps: Seq<Seq<char>>, p: Seq<char>)
    ensures
        kept_comps(ps.push(p)) == kept_comps(ps) + kept_comps(seq![p]),
{
    assert(ps.push(p).drop_last() == ps);
    lemma_kept_single(p);
    if !piece_kept(p) {
        assert(kept_comps(ps) + Seq::<Comp>::empty() == kept_comps(ps));
    }
}

proof fn lemma_pieces_step_concat(p: Seq<Seq<char>>, q: Seq<Seq<char>>, c: char)
    requires
        q.len() >= 1,
    ensures
        (if c == '/' {
            (p + q).push(Seq::<char>::empty())
        } else {
            (p + q).update((p + q).len() - 1, (p + q).last().push(c))
        }) == p + (if c == '/' {
            q.push(Seq::<char>::empty())
        } else {
            q.update(q.len() - 1, q.last().push(c))
        }),
{
    if c == '/' {
        assert((p + q).push(Seq::<char>::empty()) =~= p + q.push(Seq::<char>::empty()));
    } else {
        assert((p + q).update((p + q).len() - 1, (p + q).last().push(c)) =~= p + q.update(
            q.len() - 1,
            q.last().push(c),
        ));
    }
}

/// Splitting at a `/` splits the pieces there.
pub proof fn lemma_pieces_concat(a: Seq<char>, b: Seq<char>)
    ensures
        pieces(a + seq!['/'] + b) == pieces(a) + pieces(b),
    decreases b.len(),
{
    let s = a + seq!['/'] + b;
    if b.len() == 0 {
        assert(s.drop_last() == a);
        assert(pieces(a).push(Seq::<char>::empty()) =~= pieces(a) + pieces(b));
    } else {
        let b1 = b.drop_last();
        lemma_pieces_concat(a, b1);
        assert(s.drop_last() == a + seq!['/'] + b1);
        assert(s.last() == b.last());
        lemma_pieces_nonempty(b1);
        lemma_pieces_step_concat(pieces(a), pieces(b1), b.last());
    }
}

pub proof fn lemma_kept_concat(p: Seq<Seq<char>>, q: Seq<Seq<char>>)
    ensures
        kept_comps(p + q) == kept_comps(p) + kept_comps(q),
    decreases q.len(),
{
    if q.len() == 0 {
        assert(p + q == p);
        assert(kept_comps(p) + kept_comps(q) =~= kept_comps(p));
    } else {
        lemma_kept_concat(p, q.drop_last());
        assert((p + q).drop_last() == p + q.drop_last());
        assert((p + q).last() == q.last());
        if piece_kept(q.last()) {
            assert(kept_comps(p + q.drop_last()).push(piece_comp(q.last())) =~= kept_comps(p) + kept_comps(q.drop_last()).push(piece_comp(q.last())));
        }
    }
}

/// A string with no `/` is a single piece.
pub proof fn lemma_pieces_plain(s: Seq<char>)
    requires
        forall|i: int| 0 <= i < s.len() ==> s[i] != '/',
    ensures
        pieces(s) == seq![s],
    decreases s.len(),
{
    if s.len() > 0 {
        let t = s.drop_last();
        assert forall|i: int| 0 <= i < t.len() implies t[i] != '/' by {
            assert(t[i] == s[i]);
        }
        lemma_pieces_plain(t);
        assert(s.last() == s[s.len() - 1]);
        assert(t.push(s.last()) =~= s);
        assert(seq![t].update(0, t.push(s.last())) =~= seq![s]);
    } else {
        assert(s =~= Seq::<char>::empty());
    }
}

/// Joining a relative path that does not start with `.` to `base` appends its
/// components to those of `base`.
pub proof fn lemma_components_join(base: Seq<char>, rel: Seq<char>)
    requires
        rel.len() > 0,
        rel[0] != '/',
        rel[0] != '.',
    ensures
        components(spec_join(base, rel)) == components(base) + kept_comps(pieces(rel)),
{
    let s = spec_join(base, rel);
    if base.len() == 0 {
        assert(s == rel);
        assert(lead_comps(rel) == Seq::<Comp>::empty());
        assert(pieces(base) == seq![Seq::<char>::empty()]);
        lemma_kept_single(Seq::<char>::empty());
        assert(components(base) == Seq::<Comp>::empty());
        assert(components(s) =~= components(base) + kept_comps(pieces(rel)));
    } else if base.last() != '/' {
        assert(s == base + seq!['/'] + rel);
        lemma_pieces_concat(base, rel);
        lemma_kept_concat(pieces(base), pieces(rel));
        assert(s[0] == base[0]);
        if base.len() > 1 {
            assert(s[1] == base[1]);
        } else {
            assert(s[1] == '/');
        }
        assert(lead_comps(s) == lead_comps(base));
        assert(components(s) =~= components(base) + kept_comps(pieces(rel)));
    } else {
        let b1 = base.drop_last();
        assert(s == base + rel);
        assert(s == b1 + seq!['/'] + rel);
        assert(base == b1.push('/'));
        lemma_pieces_concat(b1, rel);
        lemma_kept_concat(pieces(b1), pieces(rel));
        assert(pieces(base) == pieces(b1).push(Seq::<char>::empty()));
        lemma_kept_push(pieces(b1), Seq::<char>::empty());
        lemma_kept_single(Seq::<char>::empty());
        assert(kept_comps(pieces(base)) =~= kept_comps(pieces(b1)));
        assert(s[0] == base[0]);
        if base.len() > 1 {
            assert(s[1] == base[1]);
        }
        assert(lead_comps(s) == lead_comps(base));
        assert(components(s) =~= components(base) + kept_comps(pieces(rel)));
    }
}

} // verus!
