//! Paths as the wiki spells them: `/`-separated text, read component by
//! component the way the platform's path type reads a Unix path.

use vstd::prelude::*;
use crate::text::{find_char_from, lemma_next_char, lemma_next_char_is, next_char};

verus! {

/// One component of a path.
pub enum Comp {
    Root,
    Cur,
    Parent,
    Normal(Seq<char>),
}

/// Whether the path starts at the filesystem root.
pub open spec fn rooted(s: Seq<char>) -> bool {
    s.len() > 0 && s[0] == '/'
}

/// What one `/`-separated segment contributes: nothing for an empty segment
/// or a `.` past the start, `Cur` for a leading `.` of a relative path.
pub open spec fn comp_of(seg: Seq<char>, first: bool, is_rooted: bool) -> Option<Comp> {
    if seg.len() == 0 {
        None
    } else if seg == seq!['.'] {
        if first && !is_rooted {
            Some(Comp::Cur)
        } else {
            None
        }
    } else if seg == seq!['.', '.'] {
        Some(Comp::Parent)
    } else {
        Some(Comp::Normal(seg))
    }
}

/// Components of the segments starting at `i`, a segment start.
pub open spec fn comps_at(s: Seq<char>, i: int, is_rooted: bool) -> Seq<Comp>
    decreases s.len() - i,
{
    if i < 0 || i > s.len() {
        seq![]
    } else {
        let e = next_char(s, i, '/');
        proof {
            lemma_next_char(s, i, '/');
        }
        let here = comp_of(s.subrange(i, e), i == 0, is_rooted);
        let rest = if e >= s.len() {
            Seq::<Comp>::empty()
        } else {
            comps_at(s, e + 1, is_rooted)
        };
        match here {
            Some(c) => seq![c] + rest,
            None => rest,
        }
    }
}

/// The components of a path.
pub open spec fn components(s: Seq<char>) -> Seq<Comp> {
    if rooted(s) {
        seq![Comp::Root] + comps_at(s, 0, true)
    } else {
        comps_at(s, 0, false)
    }
}

pub open spec fn all_normal(cs: Seq<Comp>) -> bool {
    forall|k: int| 0 <= k < cs.len() ==> cs[k] is Normal
}

/// `root` joined with a relative path.
pub open spec fn path_join(root: Seq<char>, rel: Seq<char>) -> Seq<char> {
    if root.len() == 0 {
        rel
    } else if root.last() == '/' {
        root + rel
    } else {
        root + seq!['/'] + rel
    }
}

/// The names of normal components, joined with `/`.
pub open spec fn join_names(cs: Seq<Comp>) -> Seq<char>
    decreases cs.len(),
{
    if cs.len() == 0 {
        seq![]
    } else if cs.len() == 1 {
        cs[0]->Normal_0
    } else {
        join_names(cs.drop_last()) + seq!['/'] + cs.last()->Normal_0
    }
}

/// `s` without one trailing `.md`.
pub open spec fn strip_md(s: Seq<char>) -> Seq<char> {
    if s.len() >= 3 && s.subrange(s.len() - 3, s.len() as int) == seq!['.', 'm', 'd'] {
        s.subrange(0, s.len() - 3)
    } else {
        s
    }
}

/// The file a page id names, or `None` when the id is absolute or climbs out
/// of the root through `..` or a leading `.`.
pub open spec fn page_path_spec(root: Seq<char>, target: Seq<char>) -> Option<Seq<char>> {
    if rooted(target) || !all_normal(components(target)) {
        None
    } else {
        Some(path_join(root, target + seq!['.', 'm', 'd']))
    }
}

/// The page id of `path` under `root`: the path's components past the root's,
/// all normal, joined with `/`, without `.md`. `None` when the path is not
/// under the root.
pub open spec fn page_id_spec(root: Seq<char>, path: Seq<char>) -> Option<Seq<char>> {
    let rc = components(root);
    let pc = components(path);
    if rc.len() <= pc.len() && pc.subrange(0, rc.len() as int) == rc && all_normal(
        pc.subrange(rc.len() as int, pc.len() as int),
    ) {
        Some(strip_md(join_names(pc.subrange(rc.len() as int, pc.len() as int))))
    } else {
        None
    }
}

/// One component of a path held in a character vector, as a span into it.
pub enum Part {
    Root,
    Cur,
    Parent,
    Normal(usize, usize),
}

pub open spec fn part_view(s: Seq<char>, p: Part) -> Comp {
    match p {
        Part::Root => Comp::Root,
        Part::Cur => Comp::Cur,
        Part::Parent => Comp::Parent,
        Part::Normal(lo, hi) => Comp::Normal(s.subrange(lo as int, hi as int)),
    }
}

pub open spec fn parts_view(s: Seq<char>, ps: Seq<Part>) -> Seq<Comp> {
    ps.map_values(|p: Part| part_view(s, p))
}

pub open spec fn parts_ok(s: Seq<char>, ps: Seq<Part>) -> bool {
    forall|k: int|
        0 <= k < ps.len() ==> (#[trigger] ps[k] matches Part::Normal(lo, hi) ==> lo <= hi
            <= s.len())
}

fn part_of(v: &Vec<char>, lo: usize, hi: usize, first: bool, is_rooted: bool) -> (r: Option<Part>)
    requires
        lo <= hi <= v@.len(),
    ensures
        match r {
            Some(p) => comp_of(v@.subrange(lo as int, hi as int), first, is_rooted) == Some(
                part_view(v@, p),
            ) && (p matches Part::Normal(a, b) ==> a <= b <= v@.len()),
            None => comp_of(v@.subrange(lo as int, hi as int), first, is_rooted) is None,
        },
{
    let ghost seg = v@.subrange(lo as int, hi as int);
    if lo == hi {
        None
    } else if hi - lo == 1 && v[lo] == '.' {
        assert(seg =~= seq!['.']);
        if first && !is_rooted {
            Some(Part::Cur)
        } else {
            None
        }
    } else if hi - lo == 2 && v[lo] == '.' && v[lo + 1] == '.' {
        assert(seg =~= seq!['.', '.']);
        Some(Part::Parent)
    } else {
        assert(seg != seq!['.']) by {
            if hi - lo == 1 {
                assert(seg[0] != '.');
            }
        }
        assert(seg != seq!['.', '.']) by {
            if hi - lo == 2 {
                assert(seg[0] != '.' || seg[1] != '.');
            }
        }
        Some(Part::Normal(lo, hi))
    }
}

/// The components of the path held in `v`.
pub fn parts(v: &Vec<char>) -> (r: Vec<Part>)
    ensures
        parts_view(v@, r@) == components(v@),
        parts_ok(v@, r@),
{
    let is_rooted = v.len() > 0 && v[0] == '/';
    let mut out: Vec<Part> = Vec::new();
    if is_rooted {
        out.push(Part::Root);
    }
    let ghost pre: Seq<Comp> = if is_rooted {
        seq![Comp::Root]
    } else {
        seq![]
    };
    assert(parts_view(v@, out@) =~= pre);
    let mut i: usize = 0;
    loop
        invariant
            i <= v@.len(),
            is_rooted == rooted(v@),
            parts_ok(v@, out@),
            parts_view(v@, out@) + comps_at(v@, i as int, is_rooted) == components(v@),
        decreases v@.len() - i,
    {
        let e = find_char_from(v, i, '/');
        let ghost before = out@;
        let p = part_of(v, i, e, i == 0, is_rooted);
        let ghost rest = if e >= v@.len() {
            Seq::<Comp>::empty()
        } else {
            comps_at(v@, e + 1, is_rooted)
        };
        assert(comps_at(v@, i as int, is_rooted) == match comp_of(
            v@.subrange(i as int, e as int),
            i == 0,
            is_rooted,
        ) {
            Some(c) => seq![c] + rest,
            None => rest,
        });
        match p {
            Some(part) => {
                out.push(part);
                assert(parts_view(v@, out@) =~= parts_view(v@, before).push(part_view(v@, part)));
            },
            None => {},
        }
        if e >= v.len() {
            assert(parts_view(v@, out@) + Seq::<Comp>::empty() =~= parts_view(v@, out@));
            return out;
        }
        assert(parts_view(v@, out@) + rest == components(v@)) by {
            match p {
                Some(part) => {
                    assert(parts_view(v@, out@) + rest =~= parts_view(v@, before) + (seq![
                        part_view(v@, part),
                    ] + rest));
                },
                None => {},
            }
        }
        i = e + 1;
    }
}

/// Every `/`-separated part of `s`, from the part that starts at `i` on, is a
/// plain name: not empty, not `.`, not `..`.
pub open spec fn plain_from(s: Seq<char>, i: int) -> bool
    decreases s.len() - i,
{
    if i < 0 || i > s.len() {
        false
    } else {
        let e = next_char(s, i, '/');
        proof {
            lemma_next_char(s, i, '/');
        }
        let seg = s.subrange(i, e);
        if seg.len() == 0 || seg == seq!['.'] || seg == seq!['.', '.'] {
            false
        } else if e < s.len() {
            plain_from(s, e + 1)
        } else {
            true
        }
    }
}

/// Every `/`-separated part of `s` is a plain name.
pub open spec fn plain_names(s: Seq<char>) -> bool {
    plain_from(s, 0)
}

proof fn lemma_join_cons(x: Seq<char>, rest: Seq<Comp>)
    requires
        rest.len() > 0,
    ensures
        join_names(seq![Comp::Normal(x)] + rest) == x + seq!['/'] + join_names(rest),
    decreases rest.len(),
{
    let whole = seq![Comp::Normal(x)] + rest;
    assert(whole.last() == rest.last());
    if rest.len() == 1 {
        assert(whole.drop_last() =~= seq![Comp::Normal(x)]);
        assert(join_names(whole.drop_last()) == x);
        assert(join_names(rest) == rest[0]->Normal_0);
        assert(join_names(whole) =~= x + seq!['/'] + join_names(rest));
    } else {
        lemma_join_cons(x, rest.drop_last());
        assert(whole.drop_last() =~= seq![Comp::Normal(x)] + rest.drop_last());
        assert(join_names(rest) == join_names(rest.drop_last()) + seq!['/'] + rest.last()->Normal_0);
        assert(join_names(whole) =~= x + seq!['/'] + join_names(rest));
    }
}

/// Plain parts read back as themselves.
proof fn lemma_plain_join(u: Seq<char>, i: int, r: bool)
    requires
        0 <= i <= u.len(),
        plain_from(u, i),
    ensures
        all_normal(comps_at(u, i, r)),
        comps_at(u, i, r).len() > 0,
        join_names(comps_at(u, i, r)) == u.subrange(i, u.len() as int),
    decreases u.len() - i,
{
    let e = next_char(u, i, '/');
    lemma_next_char(u, i, '/');
    let seg = u.subrange(i, e);
    assert(comp_of(seg, i == 0, r) == Some(Comp::Normal(seg)));
    if e >= u.len() {
        assert(comps_at(u, i, r) =~= seq![Comp::Normal(seg)]);
    } else {
        lemma_plain_join(u, e + 1, r);
        let rest = comps_at(u, e + 1, r);
        assert(comps_at(u, i, r) == seq![Comp::Normal(seg)] + rest);
        lemma_join_cons(seg, rest);
        assert(u.subrange(i, u.len() as int) =~= seg + seq!['/'] + u.subrange(e + 1, u.len() as int));
    }
}

/// The parts of `a` come first in the parts of `a/b`.
proof fn lemma_comps_prefix(a: Seq<char>, b: Seq<char>, i: int, r: bool)
    requires
        0 <= i <= a.len(),
    ensures
        comps_at(a + seq!['/'] + b, i, r) == comps_at(a, i, r) + comps_at(
            a + seq!['/'] + b,
            a.len() + 1 as int,
            r,
        ),
    decreases a.len() - i,
{
    let s = a + seq!['/'] + b;
    let e = next_char(a, i, '/');
    lemma_next_char(a, i, '/');
    assert forall|j: int| i <= j < e implies s[j] != '/' by {
        assert(s[j] == a[j]);
    }
    lemma_next_char_is(s, i, '/', e);
    assert(s.subrange(i, e) =~= a.subrange(i, e));
    if e < a.len() {
        lemma_comps_prefix(a, b, e + 1, r);
        assert(comps_at(s, i, r) =~= comps_at(a, i, r) + comps_at(s, a.len() + 1 as int, r)) by {
            match comp_of(a.subrange(i, e), i == 0, r) {
                Some(c) => {
                    assert(seq![c] + comps_at(a, e + 1, r) + comps_at(s, a.len() + 1 as int, r)
                        =~= seq![c] + (comps_at(a, e + 1, r) + comps_at(s, a.len() + 1 as int, r)));
                },
                None => {},
            }
        }
    } else {
        assert(comps_at(s, i, r) =~= comps_at(a, i, r) + comps_at(s, a.len() + 1 as int, r)) by {
            match comp_of(a.subrange(i, e), i == 0, r) {
                Some(c) => {},
                None => {
                    assert(comps_at(a, i, r) =~= Seq::<Comp>::empty());
                },
            }
        }
    }
}

/// Past the separator, the parts of `a/b` are those of `b`, when `b` is plain.
proof fn lemma_comps_suffix(a: Seq<char>, b: Seq<char>, k: int, r: bool, rb: bool)
    requires
        0 <= k <= b.len(),
        plain_from(b, k),
    ensures
        comps_at(a + seq!['/'] + b, a.len() + 1 + k, r) == comps_at(b, k, rb),
    decreases b.len() - k,
{
    let s = a + seq!['/'] + b;
    let j = a.len() + 1 + k;
    let e = next_char(b, k, '/');
    lemma_next_char(b, k, '/');
    assert forall|x: int| j <= x < a.len() + 1 + e implies s[x] != '/' by {
        assert(s[x] == b[x - a.len() - 1]);
    }
    if e < b.len() {
        assert(s[a.len() + 1 + e] == b[e]);
    }
    lemma_next_char_is(s, j, '/', a.len() + 1 + e);
    assert(s.subrange(j, a.len() + 1 + e) =~= b.subrange(k, e));
    if e < b.len() {
        lemma_comps_suffix(a, b, e + 1, r, rb);
    }
}

/// The parts of the root come first in the parts of a path joined onto it.
proof fn lemma_join_components(root: Seq<char>, u: Seq<char>)
    requires
        plain_names(u),
    ensures
        components(path_join(root, u)) == components(root) + comps_at(u, 0, false),
{
    let p = path_join(root, u);
    if root.len() == 0 {
        assert(comps_at(root, 0, false) =~= Seq::<Comp>::empty()) by {
            lemma_next_char(root, 0, '/');
        }
        assert(u.len() > 0 && u[0] != '/') by {
            lemma_next_char(u, 0, '/');
        }
        assert(components(root) =~= Seq::<Comp>::empty());
        assert(components(p) =~= components(root) + comps_at(u, 0, false));
    } else if root.last() != '/' {
        let rr = rooted(root);
        assert(p =~= root + seq!['/'] + u);
        assert(rooted(p) == rr);
        lemma_comps_prefix(root, u, 0, rr);
        lemma_comps_suffix(root, u, 0, rr, false);
        assert(components(p) =~= components(root) + comps_at(u, 0, false));
    } else {
        let rr = rooted(root);
        let a = root.drop_last();
        assert(p =~= a + seq!['/'] + u);
        assert(root =~= a + seq!['/'] + Seq::<char>::empty());
        assert(rooted(p) == rr);
        lemma_comps_prefix(a, u, 0, rr);
        lemma_comps_suffix(a, u, 0, rr, false);
        lemma_comps_prefix(a, Seq::<char>::empty(), 0, rr);
        assert(comps_at(root, root.len() as int, rr) =~= Seq::<Comp>::empty()) by {
            lemma_next_char(root, root.len() as int, '/');
        }
        assert(comps_at(root, 0, rr) =~= comps_at(a, 0, rr));
        assert(components(p) =~= components(root) + comps_at(u, 0, false));
    }
}

/// A page id comes back from the file it names: for every root and every id
/// that `page_path` accepts, whose parts with `.md` added are plain names,
/// `page_id(root, page_path(root, id))` is that id.
pub proof fn law_page_path_round_trips(root: Seq<char>, id: Seq<char>)
    requires
        page_path_spec(root, id) is Some,
        plain_names(id + seq!['.', 'm', 'd']),
    ensures
        page_id_spec(root, page_path_spec(root, id)->0) == Some(id),
{
    let u = id + seq!['.', 'm', 'd'];
    let p = path_join(root, u);
    lemma_join_components(root, u);
    lemma_plain_join(u, 0, false);
    assert(u[0] != '/') by {
        lemma_next_char(u, 0, '/');
    }
    assert(components(u) == comps_at(u, 0, false));
    let rc = components(root);
    let cu = comps_at(u, 0, false);
    assert((rc + cu).subrange(0, rc.len() as int) =~= rc);
    assert((rc + cu).subrange(rc.len() as int, (rc + cu).len() as int) =~= cu);
    assert(u.subrange(0, u.len() as int) =~= u);
    assert(u.subrange(u.len() - 3, u.len() as int) =~= seq!['.', 'm', 'd']);
    assert(u.subrange(0, u.len() - 3) =~= id);
}

proof fn lemma_plain_md(s: Seq<char>, i: int)
    requires
        0 <= i <= s.len(),
        plain_from(s, i),
    ensures
        plain_from(s + seq!['.', 'm', 'd'], i),
    decreases s.len() - i,
{
    let u = s + seq!['.', 'm', 'd'];
    let e = next_char(s, i, '/');
    lemma_next_char(s, i, '/');
    if e < s.len() {
        assert forall|j: int| i <= j < e implies u[j] != '/' by {
            assert(u[j] == s[j]);
        }
        assert(u[e] == s[e]);
        lemma_next_char_is(u, i, '/', e);
        assert(u.subrange(i, e) =~= s.subrange(i, e));
        lemma_plain_md(s, e + 1);
    } else {
        let eu = u.len() as int;
        assert forall|j: int| i <= j < eu implies u[j] != '/' by {
            if j < s.len() {
                assert(u[j] == s[j]);
            }
        }
        lemma_next_char_is(u, i, '/', eu);
        let seg = u.subrange(i, eu);
        assert(seg.len() >= 4);
    }
}

/// An id written the plain way, every `/`-separated part a name that is not
/// empty, `.` or `..`, names a file, and that file's page id is the id.
pub proof fn law_plain_ids_round_trip(root: Seq<char>, id: Seq<char>)
    requires
        plain_names(id),
    ensures
        page_path_spec(root, id) is Some,
        page_id_spec(root, page_path_spec(root, id)->0) == Some(id),
{
    lemma_plain_join(id, 0, false);
    assert(id[0] != '/') by {
        lemma_next_char(id, 0, '/');
    }
    assert(components(id) == comps_at(id, 0, false));
    lemma_plain_md(id, 0);
    law_page_path_round_trips(root, id);
}

/// Past the separator, the parts of `a/b` are those of `b`, when `b` does
/// not start with a `.` part.
proof fn lemma_comps_suffix_gen(a: Seq<char>, b: Seq<char>, k: int, r: bool)
    requires
        0 <= k <= b.len(),
        k == 0 ==> b.subrange(0, next_char(b, 0, '/')) != seq!['.'],
    ensures
        comps_at(a + seq!['/'] + b, a.len() + 1 + k, r) == comps_at(b, k, false),
    decreases b.len() - k,
{
    let s = a + seq!['/'] + b;
    let j = a.len() + 1 + k;
    let e = next_char(b, k, '/');
    lemma_next_char(b, k, '/');
    assert forall|x: int| j <= x < a.len() + 1 + e implies s[x] != '/' by {
        assert(s[x] == b[x - a.len() - 1]);
    }
    if e < b.len() {
        assert(s[a.len() + 1 + e] == b[e]);
    }
    lemma_next_char_is(s, j, '/', a.len() + 1 + e);
    assert(s.subrange(j, a.len() + 1 + e) =~= b.subrange(k, e));
    assert(comp_of(b.subrange(k, e), false, r) == comp_of(b.subrange(k, e), k == 0, false));
    if e < b.len() {
        lemma_comps_suffix_gen(a, b, e + 1, r);
    }
}

/// Adding `.md` to a path keeps its parts plain names: the last part only
/// grows, and a grown part is a name.
proof fn lemma_md_keeps_normal(t: Seq<char>, i: int)
    requires
        0 <= i <= t.len(),
        all_normal(comps_at(t, i, false)),
    ensures
        all_normal(comps_at(t + seq!['.', 'm', 'd'], i, false)),
    decreases t.len() - i,
{
    let u = t + seq!['.', 'm', 'd'];
    let e = next_char(t, i, '/');
    lemma_next_char(t, i, '/');
    if e < t.len() {
        assert forall|j: int| i <= j < e implies u[j] != '/' by {
            assert(u[j] == t[j]);
        }
        assert(u[e] == t[e]);
        lemma_next_char_is(u, i, '/', e);
        assert(u.subrange(i, e) =~= t.subrange(i, e));
        let rest = comps_at(t, e + 1, false);
        assert(all_normal(rest)) by {
            match comp_of(t.subrange(i, e), i == 0, false) {
                Some(c) => {
                    assert forall|q: int| 0 <= q < rest.len() implies (#[trigger] rest[q]) is Normal by {
                        assert(comps_at(t, i, false)[q + 1] == rest[q]);
                    }
                },
                None => {},
            }
        }
        lemma_md_keeps_normal(t, e + 1);
        let ru = comps_at(u, e + 1, false);
        match comp_of(t.subrange(i, e), i == 0, false) {
            Some(c) => {
                assert(comps_at(t, i, false)[0] == c);
                assert forall|q: int| 0 <= q < comps_at(u, i, false).len() implies (#[trigger] comps_at(
                    u,
                    i,
                    false,
                )[q]) is Normal by {
                    if q > 0 {
                        assert(comps_at(u, i, false)[q] == ru[q - 1]);
                    }
                }
            },
            None => {},
        }
    } else {
        let eu = u.len() as int;
        assert forall|j: int| i <= j < eu implies u[j] != '/' by {
            if j < t.len() {
                assert(u[j] == t[j]);
            }
        }
        lemma_next_char_is(u, i, '/', eu);
        let seg = u.subrange(i, eu);
        assert(seg.len() >= 3);
        assert(seg != seq!['.'] && seg != seq!['.', '.']);
        assert(comps_at(u, i, false) =~= seq![Comp::Normal(seg)]);
    }
}

/// The file `page_path` gives never climbs out of the root: its parts are
/// the root's followed by plain names, so it reads back as a page id.
pub proof fn law_page_path_stays_inside(root: Seq<char>, t: Seq<char>)
    requires
        page_path_spec(root, t) is Some,
    ensures
        page_id_spec(root, page_path_spec(root, t)->0) is Some,
        components(page_path_spec(root, t)->0) == components(root) + components(t + seq!['.', 'm', 'd']),
        all_normal(components(t + seq!['.', 'm', 'd'])),
{
    let u = t + seq!['.', 'm', 'd'];
    let p = path_join(root, u);
    assert(!rooted(t));
    assert(components(t) == comps_at(t, 0, false));
    lemma_md_keeps_normal(t, 0);
    assert(u[0] != '/') by {
        if t.len() > 0 {
            assert(u[0] == t[0]);
        }
    }
    assert(components(u) == comps_at(u, 0, false));
    let cu = comps_at(u, 0, false);
    // `u` does not start with a `.` part.
    let e0 = next_char(u, 0, '/');
    lemma_next_char(u, 0, '/');
    assert(u.subrange(0, e0) != seq!['.']) by {
        if u.subrange(0, e0) == seq!['.'] {
            assert(comp_of(u.subrange(0, e0), true, false) == Some(Comp::Cur));
            assert(cu[0] == Comp::Cur);
        }
    }
    if root.len() == 0 {
        assert(comps_at(root, 0, false) =~= Seq::<Comp>::empty()) by {
            lemma_next_char(root, 0, '/');
        }
        assert(components(root) =~= Seq::<Comp>::empty());
        assert(components(p) =~= components(root) + cu);
    } else if root.last() != '/' {
        let rr = rooted(root);
        assert(p =~= root + seq!['/'] + u);
        assert(rooted(p) == rr);
        lemma_comps_prefix(root, u, 0, rr);
        lemma_comps_suffix_gen(root, u, 0, rr);
        assert(components(p) =~= components(root) + cu);
    } else {
        let rr = rooted(root);
        let a = root.drop_last();
        assert(p =~= a + seq!['/'] + u);
        assert(root =~= a + seq!['/'] + Seq::<char>::empty());
        assert(rooted(p) == rr);
        lemma_comps_prefix(a, u, 0, rr);
        lemma_comps_suffix_gen(a, u, 0, rr);
        lemma_comps_prefix(a, Seq::<char>::empty(), 0, rr);
        assert(comps_at(root, root.len() as int, rr) =~= Seq::<Comp>::empty()) by {
            lemma_next_char(root, root.len() as int, '/');
        }
        assert(comps_at(root, 0, rr) =~= comps_at(a, 0, rr));
        assert(components(p) =~= components(root) + cu);
    }
    let rc = components(root);
    assert((rc + cu).subrange(0, rc.len() as int) =~= rc);
    assert((rc + cu).subrange(rc.len() as int, (rc + cu).len() as int) =~= cu);
}

}
