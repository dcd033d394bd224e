//! Reading the markdown wiki.
//!
//! The files are the source of truth. Nothing in here writes: pages are written
//! by the agent that did the work, and by hand. This module turns one page's
//! text into the shape the search index and the primer need.
//!
//! The parsers are strict about the page schema and lenient about whitespace,
//! because a human editing a page by hand is an expected author. Anything they
//! cannot understand is an error naming the file and the field, never a silent
//! default.

use vstd::prelude::*;
use crate::paths::{
    all_normal, components, join_names, page_id_spec, page_path_spec, part_view, parts,
    parts_ok, parts_view, path_join, rooted, strip_md, Comp, Part,
};
use crate::frontmatter::{chrono_date, frontmatter_spec, parse_frontmatter, res_view, FmView, Frontmatter};
use crate::text::{
    chars_of, extend_span, find_char_from, find_pair, find_pair_exec, lemma_find_pair,
    lemma_next_char, lemma_next_char_is, lemma_run_at, next_char, skip_ws_back, push_span, run_at, run_at_exec, skip_ws, slice_vec,
    span_is, string_of, trim, trim_end_char, trim_span, trim_start, trim_start_char,
};
use crate::watcher::{extension_of, last_dot};

verus! {

/// Why a page could not be read.
#[derive(Debug)]
pub enum WikiError {
    Io { path: String, detail: String },
    OutsideRoot { path: String },
    MissingFrontmatter { path: String },
    UnterminatedFrontmatter { path: String },
    MissingField { path: String, key: String },
    BadField { path: String, key: String, detail: String },
}

/// A `WikiError` as plain text fields.
pub enum ErrView {
    Io(Seq<char>, Seq<char>),
    OutsideRoot(Seq<char>),
    MissingFrontmatter(Seq<char>),
    UnterminatedFrontmatter(Seq<char>),
    MissingField(Seq<char>, Seq<char>),
    BadField(Seq<char>, Seq<char>, Seq<char>),
}

impl View for WikiError {
    type V = ErrView;

    open spec fn view(&self) -> ErrView {
        match self {
            WikiError::Io { path, detail } => ErrView::Io(path@, detail@),
            WikiError::OutsideRoot { path } => ErrView::OutsideRoot(path@),
            WikiError::MissingFrontmatter { path } => ErrView::MissingFrontmatter(path@),
            WikiError::UnterminatedFrontmatter { path } => ErrView::UnterminatedFrontmatter(path@),
            WikiError::MissingField { path, key } => ErrView::MissingField(path@, key@),
            WikiError::BadField { path, key, detail } => ErrView::BadField(path@, key@, detail@),
        }
    }
}

/// The sentence an error reads as, naming the file and, where there is one,
/// the field.
pub open spec fn error_message(e: ErrView) -> Seq<char> {
    match e {
        ErrView::Io(p, d) => "cannot read "@ + p + ": "@ + d,
        ErrView::OutsideRoot(p) => p + " is outside the wiki root"@,
        ErrView::MissingFrontmatter(p) => p
            + " has no frontmatter: a page must start with a --- line"@,
        ErrView::UnterminatedFrontmatter(p) => p + " has an unterminated frontmatter block"@,
        ErrView::MissingField(p, k) => p + " is missing the required frontmatter field `"@ + k
            + "`"@,
        ErrView::BadField(p, k, d) => p + " has an invalid `"@ + k + "`: "@ + d,
    }
}

impl WikiError {
    /// What went wrong, as one line.
    pub fn message(&self) -> (r: String)
        ensures
            r@ == error_message(self@),
    {
        let mut out = String::new();
        match self {
            WikiError::Io { path, detail } => {
                out.append("cannot read ");
                out.append(path.as_str());
                out.append(": ");
                out.append(detail.as_str());
            },
            WikiError::OutsideRoot { path } => {
                out.append(path.as_str());
                out.append(" is outside the wiki root");
            },
            WikiError::MissingFrontmatter { path } => {
                out.append(path.as_str());
                out.append(" has no frontmatter: a page must start with a --- line");
            },
            WikiError::UnterminatedFrontmatter { path } => {
                out.append(path.as_str());
                out.append(" has an unterminated frontmatter block");
            },
            WikiError::MissingField { path, key } => {
                out.append(path.as_str());
                out.append(" is missing the required frontmatter field `");
                out.append(key.as_str());
                out.append("`");
            },
            WikiError::BadField { path, key, detail } => {
                out.append(path.as_str());
                out.append(" has an invalid `");
                out.append(key.as_str());
                out.append("`: ");
                out.append(detail.as_str());
            },
        }
        out
    }
}

fn push_seg(out: &mut Vec<char>, v: &Vec<char>, p: &Part)
    requires
        *p matches Part::Normal(lo, hi) ==> lo <= hi <= v@.len(),
        p is Normal,
    ensures
        final(out)@ == old(out)@ + part_view(v@, *p)->Normal_0,
{
    match p {
        Part::Normal(lo, hi) => extend_span(out, v, *lo, *hi),
        _ => {},
    }
}

fn join_root(root: &Vec<char>, rel: &Vec<char>) -> (r: String)
    ensures
        r@ == path_join(root@, rel@),
{
    let mut s = string_of(root, 0, root.len());
    if root.len() > 0 && root[root.len() - 1] != '/' {
        crate::text::push_char(&mut s, '/');
    }
    push_span(&mut s, rel, 0, rel.len());
    assert(root@.subrange(0, root@.len() as int) =~= root@);
    assert(rel@.subrange(0, rel@.len() as int) =~= rel@);
    s
}

fn all_normal_parts(v: &Vec<char>, ps: &Vec<Part>, from: usize) -> (r: bool)
    requires
        from <= ps@.len(),
    ensures
        r == all_normal(parts_view(v@, ps@).subrange(from as int, ps@.len() as int)),
{
    let mut k = from;
    while k < ps.len()
        invariant
            from <= k <= ps@.len(),
            forall|j: int| from <= j < k ==> ps@[j] is Normal,
        decreases ps.len() - k,
    {
        match ps[k] {
            Part::Normal(_, _) => {},
            _ => {
                assert(!(parts_view(v@, ps@).subrange(from as int, ps@.len() as int)[k - from] is Normal));
                return false;
            },
        }
        k += 1;
    }
    true
}

/// The file a page id names, or `None` when the id climbs out of the root.
/// That refusal is the guard on any id that arrives from the webview or from a
/// link.
pub fn page_path(root: &str, target: &str) -> (r: Option<String>)
    ensures
        match r {
            Some(p) => page_path_spec(root@, target@) == Some(p@),
            None => page_path_spec(root@, target@) is None,
        },
{
    let t = chars_of(target);
    if t.len() > 0 && t[0] == '/' {
        return None;
    }
    let ps = parts(&t);
    if !all_normal_parts(&t, &ps, 0) {
        assert(parts_view(t@, ps@).subrange(0, ps@.len() as int) =~= components(t@));
        return None;
    }
    assert(parts_view(t@, ps@).subrange(0, ps@.len() as int) =~= components(t@));
    let mut rel = t;
    rel.push('.');
    rel.push('m');
    rel.push('d');
    assert(rel@ =~= target@ + seq!['.', 'm', 'd']);
    let rv = chars_of(root);
    Some(join_root(&rv, &rel))
}

fn spans_eq(a: &Vec<char>, alo: usize, ahi: usize, b: &Vec<char>, blo: usize, bhi: usize) -> (r: bool)
    requires
        alo <= ahi <= a@.len(),
        blo <= bhi <= b@.len(),
    ensures
        r == (a@.subrange(alo as int, ahi as int) == b@.subrange(blo as int, bhi as int)),
{
    if ahi - alo != bhi - blo {
        assert(a@.subrange(alo as int, ahi as int).len() != b@.subrange(blo as int, bhi as int).len());
        return false;
    }
    let n = ahi - alo;
    let mut k: usize = 0;
    while k < n
        invariant
            n == ahi - alo == bhi - blo,
            alo <= ahi <= a@.len(),
            blo <= bhi <= b@.len(),
            k <= n,
            forall|j: int| 0 <= j < k ==> #[trigger] a@.subrange(alo as int, ahi as int)[j] == b@.subrange(blo as int, bhi as int)[j],
        decreases n - k,
    {
        if a[alo + k] != b[blo + k] {
            assert(a@.subrange(alo as int, ahi as int)[k as int] != b@.subrange(blo as int, bhi as int)[k as int]);
            return false;
        }
        k += 1;
    }
    assert(a@.subrange(alo as int, ahi as int) =~= b@.subrange(blo as int, bhi as int));
    true
}

fn part_eq(a: &Vec<char>, pa: &Part, b: &Vec<char>, pb: &Part) -> (r: bool)
    requires
        *pa matches Part::Normal(lo, hi) ==> lo <= hi <= a@.len(),
        *pb matches Part::Normal(lo, hi) ==> lo <= hi <= b@.len(),
    ensures
        r == (part_view(a@, *pa) == part_view(b@, *pb)),
{
    match (pa, pb) {
        (Part::Root, Part::Root) => true,
        (Part::Cur, Part::Cur) => true,
        (Part::Parent, Part::Parent) => true,
        (Part::Normal(a0, a1), Part::Normal(b0, b1)) => spans_eq(a, *a0, *a1, b, *b0, *b1),
        _ => false,
    }
}

/// Root-relative path without the `.md`, always forward-slashed so the same
/// page has the same id everywhere.
pub fn page_id(root: &str, path: &str) -> (r: Result<String, WikiError>)
    ensures
        match r {
            Ok(id) => page_id_spec(root@, path@) == Some(id@),
            Err(e) => {
                &&& page_id_spec(root@, path@) is None
                &&& e matches WikiError::OutsideRoot { path: p } && p@ == path@
            },
        },
{
    let rv = chars_of(root);
    let pv = chars_of(path);
    let rc = parts(&rv);
    let pc = parts(&pv);
    let ghost rcv = parts_view(rv@, rc@);
    let ghost pcv = parts_view(pv@, pc@);
    assert(pv@.subrange(0, pv@.len() as int) =~= path@);
    if rc.len() > pc.len() {
        return Err(WikiError::OutsideRoot { path: string_of(&pv, 0, pv.len()) });
    }
    let mut k: usize = 0;
    while k < rc.len()
        invariant
            rc@.len() <= pc@.len(),
            k <= rc@.len(),
            rcv == parts_view(rv@, rc@),
            pcv == parts_view(pv@, pc@),
            rcv == components(root@),
            pcv == components(path@),
            pv@ == path@,
            parts_ok(rv@, rc@),
            parts_ok(pv@, pc@),
            forall|j: int| 0 <= j < k ==> rcv[j] == pcv[j],
        decreases rc.len() - k,
    {
        if !part_eq(&rv, &rc[k], &pv, &pc[k]) {
            assert(rcv[k as int] == part_view(rv@, rc@[k as int]));
            assert(pcv[k as int] == part_view(pv@, pc@[k as int]));
            assert(pcv.subrange(0, rcv.len() as int)[k as int] != rcv[k as int]);
            assert(pcv.subrange(0, rcv.len() as int) != rcv);
            return Err(WikiError::OutsideRoot { path: string_of(&pv, 0, pv.len()) });
        }
        k += 1;
    }
    assert(pcv.subrange(0, rcv.len() as int) =~= rcv);
    if !all_normal_parts(&pv, &pc, rc.len()) {
        return Err(WikiError::OutsideRoot { path: string_of(&pv, 0, pv.len()) });
    }
    let ghost rest = pcv.subrange(rcv.len() as int, pcv.len() as int);
    let mut joined: Vec<char> = Vec::new();
    let mut j = rc.len();
    while j < pc.len()
        invariant
            rc@.len() <= j <= pc@.len(),
            pcv == parts_view(pv@, pc@),
            parts_ok(pv@, pc@),
            rest == pcv.subrange(rc@.len() as int, pcv.len() as int),
            all_normal(rest),
            joined@ == join_names(rest.subrange(0, j - rc@.len())),
        decreases pc.len() - j,
    {
        let ghost before = joined@;
        assert(rest[j - rc@.len()] is Normal);
        if j > rc.len() {
            joined.push('/');
        }
        push_seg(&mut joined, &pv, &pc[j]);
        proof {
            let pre = rest.subrange(0, j - rc@.len());
            let nxt = rest.subrange(0, j + 1 - rc@.len());
            assert(nxt.drop_last() =~= pre);
            assert(nxt.last() == pcv[j as int]);
            if pre.len() == 0 {
                assert(joined@ =~= join_names(nxt));
            }
        }
        j += 1;
    }
    assert(rest.subrange(0, rest.len() as int) =~= rest);
    let n = joined.len();
    let id = if n >= 3 && joined[n - 3] == '.' && joined[n - 2] == 'm' && joined[n - 1] == 'd' {
        assert(joined@.subrange(n - 3, n as int) =~= seq!['.', 'm', 'd']);
        string_of(&joined, 0, n - 3)
    } else {
        assert(n >= 3 ==> joined@.subrange(n - 3, n as int) != seq!['.', 'm', 'd']) by {
            if n >= 3 {
                let t = joined@.subrange(n - 3, n as int);
                assert(t[0] != '.' || t[1] != 'm' || t[2] != 'd');
            }
        }
        string_of(&joined, 0, n)
    };
    assert(joined@.subrange(0, n as int) =~= joined@);
    Ok(id)
}

/// What the walk of the wiki folder does with one entry.
#[derive(Debug, Clone, Copy, PartialEq, Eq, Structural)]
pub enum Entry {
    /// Not a page: a dotfile or dot-folder, a file that is not markdown, or
    /// one of the markdown files that are not pages.
    Skip,
    /// A folder to walk into.
    Descend,
    /// A page.
    Page,
}

/// Markdown files in the wiki that are not pages: `index` and `log` are
/// derived, `AGENTS` is the schema. None of the three carries frontmatter.
pub open spec fn non_page(id: Seq<char>) -> bool {
    id == "AGENTS"@ || id == "index"@ || id == "log"@
}

/// What the walk does with the entry `name` at `path` under `root`; `None`
/// when the entry is a markdown file outside the root, which has no page id.
pub open spec fn entry_spec(root: Seq<char>, path: Seq<char>, name: Seq<char>, is_dir: bool) -> Option<Entry> {
    if name.len() > 0 && name[0] == '.' {
        Some(Entry::Skip)
    } else if is_dir {
        Some(Entry::Descend)
    } else if extension_of(name) != Some("md"@) {
        Some(Entry::Skip)
    } else {
        match page_id_spec(root, path) {
            None => None,
            Some(id) => if non_page(id) {
                Some(Entry::Skip)
            } else {
                Some(Entry::Page)
            },
        }
    }
}

/// What the walk does with the folder entry called `name`, found at `path`
/// under `root`: dotfiles and dot-folders (`.git` above all) are skipped, a
/// folder is walked into, and a file is a page when it is markdown and not
/// the schema or a derived file.
pub fn classify_entry(root: &str, path: &str, name: &str, is_dir: bool) -> (r: Result<Entry, WikiError>)
    ensures
        match r {
            Ok(e) => entry_spec(root@, path@, name@, is_dir) == Some(e),
            Err(err) => {
                &&& entry_spec(root@, path@, name@, is_dir) is None
                &&& err@ == ErrView::OutsideRoot(path@)
            },
        },
{
    let nv = chars_of(name);
    if nv.len() > 0 && nv[0] == '.' {
        return Ok(Entry::Skip);
    }
    if is_dir {
        return Ok(Entry::Descend);
    }
    let is_md = match last_dot(&nv) {
        None => false,
        Some(d) => {
            let ghost ext = nv@.subrange(d + 1, nv@.len() as int);
            let r = d > 0 && nv.len() - (d + 1) == 2 && nv[d + 1] == 'm' && nv[d + 2] == 'd';
            proof {
                reveal_strlit("md");
                if d > 0 && ext.len() == 2 {
                    assert(ext[0] == nv@[d + 1] && ext[1] == nv@[d + 2]);
                    if ext == "md"@ {
                        assert(ext[0] == 'm' && ext[1] == 'd');
                    }
                }
                if r {
                    assert(ext =~= "md"@);
                }
                if extension_of(nv@) == Some("md"@) {
                    assert(ext.len() == 2);
                }
                assert(r == (extension_of(nv@) == Some("md"@)));
            }
            r
        },
    };
    if !is_md {
        return Ok(Entry::Skip);
    }
    let id = page_id(root, path)?;
    let iv = chars_of(id.as_str());
    if span_is(&iv, 0, iv.len(), "AGENTS") || span_is(&iv, 0, iv.len(), "index") || span_is(
        &iv,
        0,
        iv.len(),
        "log",
    ) {
        assert(iv@.subrange(0, iv@.len() as int) =~= iv@);
        Ok(Entry::Skip)
    } else {
        assert(iv@.subrange(0, iv@.len() as int) =~= iv@);
        Ok(Entry::Page)
    }
}

}

verus! {

/// A `[[wiki-link]]` and the file it points at.
#[derive(Debug, Clone, PartialEq, Eq)]
pub struct WikiLink {
    /// The page id the link names: root-relative, no `.md`, no anchor.
    pub target: String,
    /// The `[[target|alias]]` display text, when the link carries one.
    pub alias: Option<String>,
    /// Path to the target file. `None` when the target escapes the wiki root,
    /// which is malformed rather than merely broken. The file is not checked
    /// for existence, so a resolved path may still not exist.
    pub path: Option<String>,
}

pub struct LinkView {
    pub target: Seq<char>,
    pub alias: Option<Seq<char>>,
    pub path: Option<Seq<char>>,
}

impl View for WikiLink {
    type V = LinkView;

    open spec fn view(&self) -> LinkView {
        LinkView { target: self.target@, alias: self.alias.deep_view(), path: self.path.deep_view() }
    }
}

pub open spec fn links_view(ls: Seq<WikiLink>) -> Seq<LinkView> {
    ls.map_values(|l: WikiLink| l@)
}

/// `s` without every leading `./`.
pub open spec fn strip_dot_slash(s: Seq<char>) -> Seq<char>
    decreases s.len(),
{
    if s.len() >= 2 && s[0] == '.' && s[1] == '/' {
        strip_dot_slash(s.subrange(2, s.len() as int))
    } else {
        s
    }
}

/// `s` up to the first `c`.
pub open spec fn before_char(s: Seq<char>, c: char) -> Seq<char> {
    s.subrange(0, next_char(s, 0, c))
}

/// The page a link's inner text names. An Obsidian `#heading` anchor, a
/// written-out `.md`, a leading `./` or `/`, and trailing slashes do not change
/// which page is meant.
pub open spec fn link_target(inner: Seq<char>) -> Seq<char> {
    let t0 = trim(before_char(before_char(inner, '|'), '#'));
    trim_end_char(strip_md(trim_start_char(strip_dot_slash(t0), '/')), '/')
}

/// The trimmed text after the first `|`, when there is any.
pub open spec fn link_alias(inner: Seq<char>) -> Option<Seq<char>> {
    let k = next_char(inner, 0, '|');
    if k < inner.len() && trim(inner.subrange(k + 1, inner.len() as int)).len() > 0 {
        Some(trim(inner.subrange(k + 1, inner.len() as int)))
    } else {
        None
    }
}

/// The link that the text between `[[` and `]]` makes, if it names anything.
pub open spec fn parse_link_spec(root: Seq<char>, inner: Seq<char>) -> Option<LinkView> {
    let t = link_target(inner);
    if t.len() == 0 {
        None
    } else {
        Some(LinkView { target: t, alias: link_alias(inner), path: page_path_spec(root, t) })
    }
}

fn strip_dot_slash_vec(t: &Vec<char>) -> (r: Vec<char>)
    ensures
        r@ == strip_dot_slash(t@),
{
    let mut p: usize = 0;
    assert(t@.subrange(0, t@.len() as int) =~= t@);
    while p < t.len() && t.len() - p >= 2 && t[p] == '.' && t[p + 1] == '/'
        invariant
            p <= t@.len(),
            strip_dot_slash(t@.subrange(p as int, t@.len() as int)) == strip_dot_slash(t@),
        decreases t.len() - p,
    {
        assert(t@.subrange(p as int, t@.len() as int).subrange(2, t@.len() - p) =~= t@.subrange(
            p + 2,
            t@.len() as int,
        ));
        p += 2;
    }
    slice_vec(t, p, t.len())
}

/// `t` without every leading `c`.
pub fn strip_lead_char(t: &Vec<char>, c: char) -> (r: Vec<char>)
    ensures
        r@ == trim_start_char(t@, c),
{
    let mut q: usize = 0;
    assert(t@.subrange(0, t@.len() as int) =~= t@);
    while q < t.len() && t[q] == c
        invariant
            q <= t@.len(),
            trim_start_char(t@.subrange(q as int, t@.len() as int), c) == trim_start_char(t@, c),
        decreases t.len() - q,
    {
        assert(t@.subrange(q as int, t@.len() as int).drop_first() =~= t@.subrange(
            q + 1,
            t@.len() as int,
        ));
        q += 1;
    }
    slice_vec(t, q, t.len())
}

/// `t` without every trailing `c`.
pub fn strip_trail_char(t: &Vec<char>, c: char) -> (r: Vec<char>)
    ensures
        r@ == trim_end_char(t@, c),
{
    let mut e = t.len();
    assert(t@.subrange(0, t@.len() as int) =~= t@);
    while e > 0 && t[e - 1] == c
        invariant
            e <= t@.len(),
            trim_end_char(t@.subrange(0, e as int), c) == trim_end_char(t@, c),
        decreases e,
    {
        assert(t@.subrange(0, e as int).drop_last() =~= t@.subrange(0, e - 1));
        e -= 1;
    }
    slice_vec(t, 0, e)
}

/// `t` without one trailing `.md`.
pub fn strip_md_vec(t: &Vec<char>) -> (r: Vec<char>)
    ensures
        r@ == strip_md(t@),
{
    let n = t.len();
    if n >= 3 && t[n - 3] == '.' && t[n - 2] == 'm' && t[n - 1] == 'd' {
        assert(t@.subrange(n - 3, n as int) =~= seq!['.', 'm', 'd']);
        slice_vec(t, 0, n - 3)
    } else {
        assert(n >= 3 ==> t@.subrange(n - 3, n as int) != seq!['.', 'm', 'd']) by {
            if n >= 3 {
                let w = t@.subrange(n - 3, n as int);
                assert(w[0] != '.' || w[1] != 'm' || w[2] != 'd');
            }
        }
        assert(t@.subrange(0, n as int) =~= t@);
        slice_vec(t, 0, n)
    }
}

fn link_target_vec(inner: &Vec<char>) -> (r: Vec<char>)
    ensures
        r@ == link_target(inner@),
{
    let bar = find_char_from(inner, 0, '|');
    let t0 = slice_vec(inner, 0, bar);
    let h = find_char_from(&t0, 0, '#');
    let (a, b) = trim_span(&t0, 0, h);
    let t1 = slice_vec(&t0, a, b);
    let t2 = strip_dot_slash_vec(&t1);
    let t3 = strip_lead_char(&t2, '/');
    let t4 = strip_md_vec(&t3);
    strip_trail_char(&t4, '/')
}

fn parse_link(root: &str, inner: &Vec<char>) -> (r: Option<WikiLink>)
    ensures
        match r {
            Some(l) => parse_link_spec(root@, inner@) == Some(l@),
            None => parse_link_spec(root@, inner@) is None,
        },
{
    let t = link_target_vec(inner);
    if t.len() == 0 {
        return None;
    }
    let target = string_of(&t, 0, t.len());
    assert(t@.subrange(0, t@.len() as int) =~= t@);
    let bar = find_char_from(inner, 0, '|');
    let alias = if bar < inner.len() {
        let (x, y) = trim_span(inner, bar + 1, inner.len());
        if x < y {
            Some(string_of(inner, x, y))
        } else {
            None
        }
    } else {
        None
    };
    let path = page_path(root, target.as_str());
    Some(WikiLink { target, alias, path })
}

/// Where a fenced code block stands: `None` outside one, or the fence
/// character and run length that opened it.
pub type FenceState = Option<(char, nat)>;

/// The fence a line would open: its first non-blank character is a backtick
/// or a tilde, repeated at least three times.
pub open spec fn fence_run(line: Seq<char>) -> Option<(char, nat)> {
    let t = trim_start(line);
    if t.len() == 0 || (t[0] != '`' && t[0] != '~') {
        None
    } else if run_at(t, 0, t[0]) >= 3 {
        Some((t[0], run_at(t, 0, t[0])))
    } else {
        None
    }
}

/// Feed one line to the fence tracker: the new state, and whether the line is
/// a fence delimiter or sits inside a fence, so must not be read as markdown.
/// A fence closes on a bare run of the same character at least as long.
pub open spec fn fence_feed(open: FenceState, line: Seq<char>) -> (FenceState, bool) {
    match open {
        None => match fence_run(line) {
            Some(r) => (Some(r), true),
            None => (None, false),
        },
        Some((oc, ol)) => match fence_run(line) {
            Some((c, n)) => if c == oc && n >= ol && trim(
                trim_start(line).subrange(n as int, trim_start(line).len() as int),
            ).len() == 0 {
                (None, true)
            } else {
                (open, true)
            },
            None => (open, true),
        },
    }
}

/// Tracks fenced code blocks, so a `##` or a `[[link]]` inside a fence is read
/// as sample text rather than as markup.
pub struct Fence {
    pub open: Option<(char, usize)>,
}

impl Fence {
    pub open spec fn state(&self) -> FenceState {
        match self.open {
            Some((c, n)) => Some((c, n as nat)),
            None => None,
        }
    }

    pub fn new() -> (f: Fence)
        ensures
            f.state() is None,
    {
        Fence { open: None }
    }

    fn run_of(line: &Vec<char>) -> (r: Option<(char, usize)>)
        ensures
            match r {
                Some((c, n)) => fence_run(line@) == Some((c, n as nat)),
                None => fence_run(line@) is None,
            },
    {
        let s = skip_ws(line, 0, line.len());
        assert(line@.subrange(0, line@.len() as int) =~= line@);
        let t = slice_vec(line, s, line.len());
        if t.len() == 0 || (t[0] != '`' && t[0] != '~') {
            return None;
        }
        let n = run_at_exec(&t, 0, t[0]);
        if n >= 3 {
            Some((t[0], n))
        } else {
            None
        }
    }

    /// Feed one line. Returns true when the line is a fence delimiter or sits
    /// inside a fence, meaning it must not be parsed as markdown.
    pub fn feed(&mut self, line: &Vec<char>) -> (inside: bool)
        ensures
            (final(self).state(), inside) == fence_feed(old(self).state(), line@),
    {
        match self.open {
            None => match Self::run_of(line) {
                Some(run) => {
                    self.open = Some(run);
                    true
                },
                None => false,
            },
            Some((oc, ol)) => {
                match Self::run_of(line) {
                    Some((c, n)) => {
                        let s = skip_ws(line, 0, line.len());
                        assert(line@.subrange(0, line@.len() as int) =~= line@);
                        let t = slice_vec(line, s, line.len());
                        proof {
                            lemma_run_at(t@, 0, c);
                        }
                        let (x, y) = trim_span(&t, n, t.len());
                        if c == oc && n >= ol && x == y {
                            self.open = None;
                        }
                        true
                    },
                    None => true,
                }
            },
        }
    }
}

} // verus!

verus! {

/// The links found on one line from index `i` on, appended to `acc`.
/// `code` is the length of the backtick run that opened an inline code span,
/// when one is open: links inside code are examples, not edges. An unclosed
/// `[[` does not swallow a link that opens after it.
pub open spec fn scan(
    root: Seq<char>,
    s: Seq<char>,
    i: int,
    code: Option<nat>,
    acc: Seq<LinkView>,
) -> Seq<LinkView>
    decreases s.len() - i,
{
    if i < 0 || i >= s.len() {
        acc
    } else if s[i] == '`' {
        let run = run_at(s, i, '`');
        proof {
            assert(run == 1 + run_at(s, i + 1, '`'));
            lemma_run_at(s, i, '`');
        }
        let code2: Option<nat> = match code {
            Some(o) => if o == run {
                None
            } else {
                Some(o)
            },
            None => Some(run),
        };
        scan(root, s, i + run, code2, acc)
    } else if s[i] == '[' && code is None && i + 1 < s.len() && s[i + 1] == '[' {
        let close = find_pair(s, i + 2, ']');
        let open = find_pair(s, i + 2, '[');
        proof {
            lemma_find_pair(s, i + 2, ']');
            lemma_find_pair(s, i + 2, '[');
        }
        if close < s.len() && open < close {
            scan(root, s, open, code, acc)
        } else if close < s.len() {
            let found = parse_link_spec(root, s.subrange(i + 2, close));
            scan(
                root,
                s,
                close + 2,
                code,
                match found {
                    Some(l) => acc.push(l),
                    None => acc,
                },
            )
        } else {
            scan(root, s, i + 2, code, acc)
        }
    } else {
        scan(root, s, i + 1, code, acc)
    }
}

/// One line as `str::lines` yields it: the text before the `\n`, less one
/// `\r` that stood right before that `\n`.
pub open spec fn line_at(s: Seq<char>, i: int) -> Seq<char> {
    let e = next_char(s, i, '\n');
    let raw = s.subrange(i, e);
    if e < s.len() && raw.len() > 0 && raw.last() == '\r' {
        raw.drop_last()
    } else {
        raw
    }
}

/// Links of the lines starting at `i`, appended to `acc`, skipping lines that
/// sit in a fenced code block.
pub open spec fn links_from(
    root: Seq<char>,
    s: Seq<char>,
    i: int,
    fence: FenceState,
    acc: Seq<LinkView>,
) -> Seq<LinkView>
    decreases s.len() - i,
{
    if i < 0 || i >= s.len() {
        acc
    } else {
        let e = next_char(s, i, '\n');
        proof {
            lemma_next_char(s, i, '\n');
        }
        let line = line_at(s, i);
        let fed = fence_feed(fence, trim_end_char(line, '\r'));
        let acc2 = if fed.1 {
            acc
        } else {
            scan(root, line, 0, None, acc)
        };
        if e >= s.len() {
            acc2
        } else {
            links_from(root, s, e + 1, fed.0, acc2)
        }
    }
}


proof fn lemma_scan_acc(root: Seq<char>, s: Seq<char>, i: int, code: Option<nat>, acc: Seq<LinkView>)
    ensures
        scan(root, s, i, code, acc) == acc + scan(root, s, i, code, seq![]),
    decreases s.len() - i,
{
    if i < 0 || i >= s.len() {
        assert(acc + Seq::<LinkView>::empty() =~= acc);
    } else if s[i] == '`' {
        let run = run_at(s, i, '`');
        assert(run == 1 + run_at(s, i + 1, '`'));
        lemma_run_at(s, i, '`');
        let code2: Option<nat> = match code {
            Some(o) => if o == run {
                None
            } else {
                Some(o)
            },
            None => Some(run),
        };
        lemma_scan_acc(root, s, i + run, code2, acc);
        lemma_scan_acc(root, s, i + run, code2, seq![]);
    } else if s[i] == '[' && code is None && i + 1 < s.len() && s[i + 1] == '[' {
        let close = find_pair(s, i + 2, ']');
        let open = find_pair(s, i + 2, '[');
        lemma_find_pair(s, i + 2, ']');
        lemma_find_pair(s, i + 2, '[');
        if close < s.len() && open < close {
            lemma_scan_acc(root, s, open, code, acc);
            lemma_scan_acc(root, s, open, code, seq![]);
        } else if close < s.len() {
            let found = parse_link_spec(root, s.subrange(i + 2, close));
            match found {
                Some(l) => {
                    lemma_scan_acc(root, s, close + 2, code, acc.push(l));
                    lemma_scan_acc(root, s, close + 2, code, seq![l]);
                    assert(Seq::<LinkView>::empty().push(l) =~= seq![l]);
                    let rest = scan(root, s, close + 2, code, seq![]);
                    assert(acc.push(l) + rest =~= acc + (seq![l] + rest));
                },
                None => {
                    lemma_scan_acc(root, s, close + 2, code, acc);
                    lemma_scan_acc(root, s, close + 2, code, seq![]);
                },
            }
        } else {
            lemma_scan_acc(root, s, i + 2, code, acc);
            lemma_scan_acc(root, s, i + 2, code, seq![]);
        }
    } else {
        lemma_scan_acc(root, s, i + 1, code, acc);
        lemma_scan_acc(root, s, i + 1, code, seq![]);
    }
}

proof fn lemma_run_at_cr(l: Seq<char>, i: int)
    requires
        0 <= i,
    ensures
        run_at(l.push('\r'), i, '`') == run_at(l, i, '`'),
    decreases l.len() + 1 - i,
{
    if i < l.len() {
        assert(l.push('\r')[i] == l[i]);
        lemma_run_at_cr(l, i + 1);
    }
}

proof fn lemma_find_pair_cr(l: Seq<char>, j: int, c: char)
    requires
        0 <= j,
        c != '\r',
    ensures
        find_pair(l.push('\r'), j, c) == if find_pair(l, j, c) == l.len() {
            l.len() + 1int
        } else {
            find_pair(l, j, c)
        },
    decreases l.len() + 1 - j,
{
    let t = l.push('\r');
    if j + 1 < t.len() {
        if j + 1 == l.len() {
            assert(t[j + 1] == '\r');
            lemma_find_pair_cr(l, j + 1, c);
        } else {
            assert(t[j] == l[j] && t[j + 1] == l[j + 1]);
            if !(l[j] == c && l[j + 1] == c) {
                lemma_find_pair_cr(l, j + 1, c);
            }
        }
    }
}

/// A line read with a trailing `\r` yields the links it yields without one.
proof fn lemma_scan_cr(root: Seq<char>, l: Seq<char>, i: int, code: Option<nat>, acc: Seq<LinkView>)
    requires
        0 <= i,
    ensures
        scan(root, l.push('\r'), i, code, acc) == scan(root, l, i, code, acc),
    decreases l.len() + 1 - i,
{
    let t = l.push('\r');
    if i == l.len() {
        assert(t[i] == '\r');
        assert(scan(root, t, i + 1, code, acc) == acc);
    } else if i < l.len() {
        assert(t[i] == l[i]);
        if l[i] == '`' {
            let run = run_at(l, i, '`');
            assert(run == 1 + run_at(l, i + 1, '`'));
            lemma_run_at(l, i, '`');
            lemma_run_at_cr(l, i);
            let code2: Option<nat> = match code {
                Some(o) => if o == run {
                    None
                } else {
                    Some(o)
                },
                None => Some(run),
            };
            lemma_scan_cr(root, l, i + run, code2, acc);
        } else if l[i] == '[' && code is None && i + 1 < t.len() && t[i + 1] == '[' {
            assert(i + 1 < l.len() && l[i + 1] == '[');
            let close = find_pair(l, i + 2, ']');
            let open = find_pair(l, i + 2, '[');
            lemma_find_pair(l, i + 2, ']');
            lemma_find_pair(l, i + 2, '[');
            lemma_find_pair_cr(l, i + 2, ']');
            lemma_find_pair_cr(l, i + 2, '[');
            if close < l.len() && open < close {
                lemma_scan_cr(root, l, open, code, acc);
            } else if close < l.len() {
                assert(t.subrange(i + 2, close) =~= l.subrange(i + 2, close));
                let found = parse_link_spec(root, l.subrange(i + 2, close));
                match found {
                    Some(x) => lemma_scan_cr(root, l, close + 2, code, acc.push(x)),
                    None => lemma_scan_cr(root, l, close + 2, code, acc),
                }
            } else {
                lemma_scan_cr(root, l, i + 2, code, acc);
            }
        } else {
            if l[i] == '[' && code is None && i + 1 < l.len() && l[i + 1] == '[' {
                assert(t[i + 1] == l[i + 1]);
            }
            lemma_scan_cr(root, l, i + 1, code, acc);
        }
    }
}

/// Every `[[wiki-link]]` in a text, in order, duplicates included.
pub open spec fn links_spec(root: Seq<char>, text: Seq<char>) -> Seq<LinkView> {
    links_from(root, text, 0, None, seq![])
}

/// The fence left open after the lines of `s` from `i` on, fed from `fence`.
pub open spec fn fence_from(s: Seq<char>, i: int, fence: FenceState) -> FenceState
    decreases s.len() - i,
{
    if i < 0 || i >= s.len() {
        fence
    } else {
        let e = next_char(s, i, '\n');
        proof {
            lemma_next_char(s, i, '\n');
        }
        let fed = fence_feed(fence, trim_end_char(line_at(s, i), '\r'));
        if e >= s.len() {
            fed.0
        } else {
            fence_from(s, e + 1, fed.0)
        }
    }
}

proof fn lemma_links_acc(root: Seq<char>, s: Seq<char>, i: int, fence: FenceState, acc: Seq<LinkView>)
    ensures
        links_from(root, s, i, fence, acc) == acc + links_from(root, s, i, fence, seq![]),
    decreases s.len() - i,
{
    if i < 0 || i >= s.len() {
        assert(acc + Seq::<LinkView>::empty() =~= acc);
    } else {
        let e = next_char(s, i, '\n');
        lemma_next_char(s, i, '\n');
        let line = line_at(s, i);
        let fed = fence_feed(fence, trim_end_char(line, '\r'));
        lemma_scan_acc(root, line, 0, None, acc);
        let found = scan(root, line, 0, None, seq![]);
        if e < s.len() {
            if fed.1 {
                lemma_links_acc(root, s, e + 1, fed.0, acc);
                lemma_links_acc(root, s, e + 1, fed.0, seq![]);
            } else {
                lemma_links_acc(root, s, e + 1, fed.0, acc + found);
                lemma_links_acc(root, s, e + 1, fed.0, found);
                let rest = links_from(root, s, e + 1, fed.0, seq![]);
                assert(acc + found + rest =~= acc + (found + rest));
            }
        } else {
            if !fed.1 {
                assert(Seq::<LinkView>::empty() + found =~= found);
            } else {
                assert(acc + Seq::<LinkView>::empty() =~= acc);
            }
        }
    }
}

/// Past the line break that joins `a` and `b`, the links are those of `b`.
proof fn lemma_links_suffix(
    root: Seq<char>,
    a: Seq<char>,
    b: Seq<char>,
    j: int,
    fence: FenceState,
    acc: Seq<LinkView>,
)
    requires
        0 <= j,
    ensures
        links_from(root, a + seq!['\n'] + b, a.len() + 1 + j, fence, acc) == links_from(root, b, j, fence, acc),
    decreases b.len() - j,
{
    let s = a + seq!['\n'] + b;
    let off = a.len() + 1;
    if j < b.len() {
        let e = next_char(b, j, '\n');
        lemma_next_char(b, j, '\n');
        assert forall|x: int| off + j <= x < off + e implies s[x] != '\n' by {
            assert(s[x] == b[x - off]);
        }
        if e < b.len() {
            assert(s[off + e] == b[e]);
        }
        lemma_next_char_is(s, off + j, '\n', off + e);
        assert(s.subrange(off + j, off + e) =~= b.subrange(j, e));
        assert(line_at(s, off + j) == line_at(b, j));
        if e < b.len() {
            let fed = fence_feed(fence, trim_end_char(line_at(b, j), '\r'));
            let acc2 = if fed.1 {
                acc
            } else {
                scan(root, line_at(b, j), 0, None, acc)
            };
            lemma_links_suffix(root, a, b, e + 1, fed.0, acc2);
            assert(off + e + 1 == off + (e + 1));
        }
    }
}

/// Up to the line break that joins `a` and `b`, the lines are those of `a`.
proof fn lemma_links_prefix(
    root: Seq<char>,
    a: Seq<char>,
    b: Seq<char>,
    i: int,
    fence: FenceState,
    acc: Seq<LinkView>,
)
    requires
        0 <= i <= a.len(),
    ensures
        links_from(root, a + seq!['\n'] + b, i, fence, acc) == links_from(
            root,
            a + seq!['\n'] + b,
            a.len() + 1int,
            fence_from(a, i, fence),
            links_from(root, a, i, fence, acc),
        ),
    decreases a.len() - i,
{
    let s = a + seq!['\n'] + b;
    if i == a.len() {
        assert(s[i] == '\n');
        lemma_next_char_is(s, i, '\n', i);
        assert(s.subrange(i, i) =~= Seq::<char>::empty());
        assert(line_at(s, i) =~= Seq::<char>::empty());
        assert(trim_end_char(Seq::<char>::empty(), '\r') == Seq::<char>::empty());
        assert(fence_run(Seq::<char>::empty()) is None) by {
            reveal_strlit("");
        }
        assert(fence_feed(fence, Seq::<char>::empty()).0 == fence);
        assert(scan(root, Seq::<char>::empty(), 0, None, acc) == acc);
    } else {
        let e = next_char(a, i, '\n');
        lemma_next_char(a, i, '\n');
        assert forall|x: int| i <= x < e implies s[x] != '\n' by {
            assert(s[x] == a[x]);
        }
        if e < a.len() {
            assert(s[e] == a[e]);
        } else {
            assert(s[e] == '\n');
        }
        lemma_next_char_is(s, i, '\n', e);
        let raw = a.subrange(i, e);
        assert(s.subrange(i, e) =~= raw);
        let la = line_at(a, i);
        let ls = line_at(s, i);
        assert(trim_end_char(ls, '\r') == trim_end_char(la, '\r'));
        let fed = fence_feed(fence, trim_end_char(la, '\r'));
        if e < a.len() {
            assert(ls == la);
            let acc2 = if fed.1 {
                acc
            } else {
                scan(root, la, 0, None, acc)
            };
            lemma_links_prefix(root, a, b, e + 1, fed.0, acc2);
        } else {
            assert(la == raw);
            if raw.len() > 0 && raw.last() == '\r' {
                assert(raw =~= ls.push('\r'));
                lemma_scan_cr(root, ls, 0, None, acc);
            } else {
                assert(ls == raw);
            }
            assert(scan(root, ls, 0, None, acc) == scan(root, la, 0, None, acc));
        }
    }
}

/// Links come in text order, duplicates kept: the links of two texts joined
/// by a line break are the links of the first, then those of the second,
/// when the first leaves no code fence open.
pub proof fn law_links_follow_the_text(root: Seq<char>, a: Seq<char>, b: Seq<char>)
    requires
        fence_from(a, 0, None) is None,
    ensures
        links_spec(root, a + seq!['\n'] + b) == links_spec(root, a) + links_spec(root, b),
{
    lemma_links_prefix(root, a, b, 0, None, seq![]);
    lemma_links_suffix(root, a, b, 0, None, links_spec(root, a));
    lemma_links_acc(root, b, 0, None, links_spec(root, a));
}

/// Every link's file is the one its target names.
pub open spec fn paths_resolved(root: Seq<char>, ls: Seq<LinkView>) -> bool {
    forall|k: int| 0 <= k < ls.len() ==> (#[trigger] ls[k]).path == page_path_spec(root, ls[k].target)
}

proof fn lemma_scan_resolved(root: Seq<char>, s: Seq<char>, i: int, code: Option<nat>, acc: Seq<LinkView>)
    requires
        paths_resolved(root, acc),
    ensures
        paths_resolved(root, scan(root, s, i, code, acc)),
    decreases s.len() - i,
{
    if i < 0 || i >= s.len() {
    } else if s[i] == '`' {
        let run = run_at(s, i, '`');
        assert(run == 1 + run_at(s, i + 1, '`'));
        lemma_run_at(s, i, '`');
        let code2: Option<nat> = match code {
            Some(o) => if o == run {
                None
            } else {
                Some(o)
            },
            None => Some(run),
        };
        lemma_scan_resolved(root, s, i + run, code2, acc);
    } else if s[i] == '[' && code is None && i + 1 < s.len() && s[i + 1] == '[' {
        let close = find_pair(s, i + 2, ']');
        let open = find_pair(s, i + 2, '[');
        lemma_find_pair(s, i + 2, ']');
        lemma_find_pair(s, i + 2, '[');
        if close < s.len() && open < close {
            lemma_scan_resolved(root, s, open, code, acc);
        } else if close < s.len() {
            let found = parse_link_spec(root, s.subrange(i + 2, close));
            match found {
                Some(l) => {
                    assert(paths_resolved(root, acc.push(l))) by {
                        assert forall|k: int| 0 <= k < acc.push(l).len() implies (#[trigger] acc.push(
                            l,
                        )[k]).path == page_path_spec(root, acc.push(l)[k].target) by {
                            if k < acc.len() {
                                assert(acc.push(l)[k] == acc[k]);
                            }
                        }
                    }
                    lemma_scan_resolved(root, s, close + 2, code, acc.push(l));
                },
                None => lemma_scan_resolved(root, s, close + 2, code, acc),
            }
        } else {
            lemma_scan_resolved(root, s, i + 2, code, acc);
        }
    } else {
        lemma_scan_resolved(root, s, i + 1, code, acc);
    }
}

proof fn lemma_links_resolved(root: Seq<char>, s: Seq<char>, i: int, fence: FenceState, acc: Seq<LinkView>)
    requires
        paths_resolved(root, acc),
    ensures
        paths_resolved(root, links_from(root, s, i, fence, acc)),
    decreases s.len() - i,
{
    if 0 <= i < s.len() {
        let e = next_char(s, i, '\n');
        lemma_next_char(s, i, '\n');
        let line = line_at(s, i);
        let fed = fence_feed(fence, trim_end_char(line, '\r'));
        lemma_scan_resolved(root, line, 0, None, acc);
        if e < s.len() {
            let acc2 = if fed.1 {
                acc
            } else {
                scan(root, line, 0, None, acc)
            };
            lemma_links_resolved(root, s, e + 1, fed.0, acc2);
        }
    }
}

/// Every link found in a text carries the file its target names, exactly as
/// `page_path` resolves it, or none when the target climbs out of the root.
pub proof fn law_links_resolve_their_targets(root: Seq<char>, text: Seq<char>)
    ensures
        paths_resolved(root, links_spec(root, text)),
{
    lemma_links_resolved(root, text, 0, None, seq![]);
}

pub open spec fn code_view(code: Option<usize>) -> Option<nat> {
    match code {
        Some(n) => Some(n as nat),
        None => None,
    }
}

fn scan_line(root: &str, line: &Vec<char>, out: &mut Vec<WikiLink>)
    ensures
        links_view(final(out)@) == scan(root@, line@, 0, None, links_view(old(out)@)),
{
    let mut code: Option<usize> = None;
    let mut i: usize = 0;
    while i < line.len()
        invariant
            i <= line@.len(),
            scan(root@, line@, i as int, code_view(code), links_view(out@)) == scan(
                root@,
                line@,
                0,
                None,
                links_view(old(out)@),
            ),
        decreases line.len() - i,
    {
        if line[i] == '`' {
            let run = run_at_exec(line, i, '`');
            code = match code {
                Some(open) => if open == run {
                    None
                } else {
                    Some(open)
                },
                None => Some(run),
            };
            i += run;
        } else if line[i] == '[' && code.is_none() && line.len() - i >= 2 && line[i + 1] == '[' {
            let close = find_pair_exec(line, i + 2, ']');
            let open = find_pair_exec(line, i + 2, '[');
            proof {
                lemma_find_pair(line@, i + 2, ']');
                lemma_find_pair(line@, i + 2, '[');
            }
            if close < line.len() && open < close {
                i = open;
            } else if close < line.len() {
                let inner = slice_vec(line, i + 2, close);
                let ghost before = out@;
                match parse_link(root, &inner) {
                    Some(l) => {
                        out.push(l);
                        assert(links_view(out@) =~= links_view(before).push(l@));
                    },
                    None => {},
                }
                i = close + 2;
            } else {
                i += 2;
            }
        } else {
            i += 1;
        }
    }
}

/// The links of the text in `v`, line by line.
pub fn links_in_chars(root: &str, v: &Vec<char>) -> (r: Vec<WikiLink>)
    ensures
        links_view(r@) == links_spec(root@, v@),
{
    let mut out: Vec<WikiLink> = Vec::new();
    let mut fence = Fence::new();
    let mut i: usize = 0;
    assert(links_view(out@) =~= Seq::<LinkView>::empty());
    while i < v.len()
        invariant
            i <= v@.len(),
            links_from(root@, v@, i as int, fence.state(), links_view(out@)) == links_spec(
                root@,
                v@,
            ),
        decreases v.len() - i,
    {
        let e = find_char_from(v, i, '\n');
        let line = if e < v.len() && e > i && v[e - 1] == '\r' {
            slice_vec(v, i, e - 1)
        } else {
            slice_vec(v, i, e)
        };
        assert(line@ =~= line_at(v@, i as int));
        let bare = strip_trail_char(&line, '\r');
        if !fence.feed(&bare) {
            scan_line(root, &line, &mut out);
        }
        if e >= v.len() {
            return out;
        }
        i = e + 1;
    }
    out
}

/// Every `[[wiki-link]]` in `text`, in order. Links inside fenced code blocks
/// and inline code spans are examples, not edges, so they are skipped.
pub fn links_in(root: &str, text: &str) -> (r: Vec<WikiLink>)
    ensures
        links_view(r@) == links_spec(root@, text@),
{
    let v = chars_of(text);
    links_in_chars(root, &v)
}

} // verus!

verus! {

/// How many bytes `c` takes in UTF-8.
pub open spec fn utf8_width(c: char) -> nat {
    let u = c as u32;
    if u < 0x80 {
        1
    } else if u < 0x800 {
        2
    } else if u < 0x10000 {
        3
    } else {
        4
    }
}

/// How many bytes `s` takes in UTF-8.
pub open spec fn byte_len(s: Seq<char>) -> nat
    decreases s.len(),
{
    if s.len() == 0 {
        0
    } else {
        byte_len(s.drop_last()) + utf8_width(s.last())
    }
}

pub fn utf8_width_exec(c: char) -> (r: usize)
    ensures
        r == utf8_width(c),
{
    let u = c as u32;
    if u < 0x80 {
        1
    } else if u < 0x800 {
        2
    } else if u < 0x10000 {
        3
    } else {
        4
    }
}

/// Level and text of an ATX heading. Four bytes of indent make it a code
/// block rather than a heading; more than six `#` is not a heading; the `#`s
/// must be followed by a space or nothing; closing `#`s are dropped.
pub open spec fn heading_spec(line: Seq<char>) -> Option<(nat, Seq<char>)> {
    let t = trim_start(line);
    let indent = line.subrange(0, line.len() - t.len());
    if byte_len(indent) >= 4 {
        None
    } else {
        let level = run_at(t, 0, '#');
        if level == 0 || level > 6 {
            None
        } else {
            let rest = t.subrange(level as int, t.len() as int);
            if rest.len() > 0 && rest[0] != ' ' {
                None
            } else {
                Some((level, trim(trim_end_char(trim(rest), '#'))))
            }
        }
    }
}

fn heading(line: &Vec<char>) -> (r: Option<(usize, Vec<char>)>)
    ensures
        match r {
            Some((level, text)) => heading_spec(line@) == Some((level as nat, text@)),
            None => heading_spec(line@) is None,
        },
{
    let s = skip_ws(line, 0, line.len());
    assert(line@.subrange(0, line@.len() as int) =~= line@);
    proof {
        crate::text::lemma_trim_start_suffix(line@);
    }
    let mut bytes: usize = 0;
    let mut k: usize = 0;
    while k < s
        invariant
            k <= s <= line@.len(),
            bytes == byte_len(line@.subrange(0, k as int)),
            bytes < 4,
            line@.subrange(s as int, line@.len() as int) == trim_start(line@),
        decreases s - k,
    {
        assert(line@.subrange(0, k + 1).drop_last() =~= line@.subrange(0, k as int));
        let w = utf8_width_exec(line[k]);
        if bytes + w >= 4 {
            proof {
                assert(byte_len(line@.subrange(0, k + 1)) == bytes + w);
                assert(line@.subrange(0, line@.len() - trim_start(line@).len()) =~= line@.subrange(0, s as int));
                lemma_byte_len_mono(line@.subrange(0, s as int), (k + 1) as int);
                assert(line@.subrange(0, s as int).subrange(0, k + 1) =~= line@.subrange(0, k + 1));
            }
            return None;
        }
        bytes = bytes + w;
        k += 1;
    }
    assert(line@.subrange(0, line@.len() - trim_start(line@).len()) =~= line@.subrange(0, s as int));
    let t = slice_vec(line, s, line.len());
    let level = run_at_exec(&t, 0, '#');
    if level == 0 || level > 6 {
        return None;
    }
    proof {
        lemma_run_at(t@, 0, '#');
    }
    if level < t.len() && t[level] != ' ' {
        return None;
    }
    let rest = slice_vec(&t, level, t.len());
    let (a, b) = trim_span(&rest, 0, rest.len());
    assert(rest@.subrange(0, rest@.len() as int) =~= rest@);
    let r1 = slice_vec(&rest, a, b);
    let r2 = strip_trail_char(&r1, '#');
    let (c, d) = trim_span(&r2, 0, r2.len());
    assert(r2@.subrange(0, r2@.len() as int) =~= r2@);
    Some((level, slice_vec(&r2, c, d)))
}

pub proof fn lemma_byte_len_mono(s: Seq<char>, k: int)
    requires
        0 <= k <= s.len(),
    ensures
        byte_len(s.subrange(0, k)) <= byte_len(s),
    decreases s.len(),
{
    if k < s.len() {
        assert(s.drop_last() =~= s.subrange(0, s.len() - 1));
        lemma_byte_len_mono(s.drop_last(), k);
        assert(s.drop_last().subrange(0, k) =~= s.subrange(0, k));
    } else {
        assert(s.subrange(0, k) =~= s);
    }
}

} // verus!

verus! {

/// One `##` heading and everything under it, including any deeper headings.
#[derive(Debug, Clone, PartialEq, Eq)]
pub struct Section {
    pub heading: String,
    pub body: String,
}

pub struct SectionView {
    pub heading: Seq<char>,
    pub body: Seq<char>,
}

impl View for Section {
    type V = SectionView;

    open spec fn view(&self) -> SectionView {
        SectionView { heading: self.heading@, body: self.body@ }
    }
}

pub open spec fn sections_view(ss: Seq<Section>) -> Seq<SectionView> {
    ss.map_values(|s: Section| s@)
}

/// `buf` with one more line: joined with `\n` when it already has one.
pub open spec fn join_push(buf: Seq<char>, any: bool, line: Seq<char>) -> Seq<char> {
    if any {
        buf + seq!['\n'] + line
    } else {
        buf + line
    }
}

/// The state of a body read partway: the title, the preamble lines joined so
/// far, the finished sections, the section being read (heading, lines joined
/// so far, whether it has any), and the fence.
pub struct BodyAcc {
    pub title: Seq<char>,
    pub pre: Seq<char>,
    pub pre_any: bool,
    pub secs: Seq<SectionView>,
    pub cur: Option<(Seq<char>, Seq<char>, bool)>,
    pub fence: FenceState,
}

pub open spec fn body_init() -> BodyAcc {
    BodyAcc {
        title: seq![],
        pre: seq![],
        pre_any: false,
        secs: seq![],
        cur: None,
        fence: None,
    }
}

/// The finished sections, with the open one closed.
pub open spec fn close_cur(st: BodyAcc) -> Seq<SectionView> {
    match st.cur {
        Some((h, b, _)) => st.secs.push(SectionView { heading: h, body: trim(b) }),
        None => st.secs,
    }
}

/// Read one line of a body. Outside a fence, the first `#` heading before
/// any section is the title and a `##` heading opens a section; every other
/// line belongs to the open section, or to the preamble before the first.
pub open spec fn body_step(st: BodyAcc, line: Seq<char>) -> BodyAcc {
    let fed = fence_feed(st.fence, line);
    let h = if fed.1 {
        None
    } else {
        heading_spec(line)
    };
    let is_title = match h {
        Some((level, _)) => level == 1 && st.title.len() == 0 && st.cur is None,
        _ => false,
    };
    match h {
        Some((level, text)) if is_title => BodyAcc { title: text, fence: fed.0, ..st },
        Some((level, text)) if level == 2 => BodyAcc {
            secs: close_cur(st),
            cur: Some((text, seq![], false)),
            fence: fed.0,
            ..st
        },
        _ => match st.cur {
            Some((hd, b, any)) => BodyAcc {
                cur: Some((hd, join_push(b, any, line), true)),
                fence: fed.0,
                ..st
            },
            None => BodyAcc { pre: join_push(st.pre, st.pre_any, line), pre_any: true, fence: fed.0, ..st },
        },
    }
}

/// The body state after reading the lines that start at `i`.
pub open spec fn body_from(s: Seq<char>, i: int, st: BodyAcc) -> BodyAcc
    decreases s.len() - i,
{
    if i < 0 || i >= s.len() {
        st
    } else {
        let e = next_char(s, i, '\n');
        proof {
            lemma_next_char(s, i, '\n');
        }
        let st2 = body_step(st, trim_end_char(line_at(s, i), '\r'));
        if e >= s.len() {
            st2
        } else {
            body_from(s, e + 1, st2)
        }
    }
}

/// A body's title, its trimmed preamble, and its `##` sections with trimmed
/// bodies.
pub open spec fn parse_body_spec(body: Seq<char>) -> (Seq<char>, Seq<char>, Seq<SectionView>) {
    let st = body_from(body, 0, body_init());
    (st.title, trim(st.pre), close_cur(st))
}

struct BodyBuilder {
    title: Vec<char>,
    pre: Vec<char>,
    pre_any: bool,
    secs: Vec<Section>,
    cur: Option<(Vec<char>, Vec<char>, bool)>,
    fence: Fence,
}

impl BodyBuilder {
    spec fn view(&self) -> BodyAcc {
        BodyAcc {
            title: self.title@,
            pre: self.pre@,
            pre_any: self.pre_any,
            secs: sections_view(self.secs@),
            cur: match self.cur {
                Some((h, b, any)) => Some((h@, b@, any)),
                None => None,
            },
            fence: self.fence.state(),
        }
    }

    fn finish_cur(&mut self)
        ensures
            sections_view(final(self).secs@) == close_cur(old(self).view()),
            final(self).cur is None,
            final(self).title == old(self).title,
            final(self).pre == old(self).pre,
            final(self).pre_any == old(self).pre_any,
            final(self).fence == old(self).fence,
    {
        let cur = self.cur.take();
        match cur {
            Some((h, b, _)) => {
                let (x, y) = trim_span(&b, 0, b.len());
                assert(b@.subrange(0, b@.len() as int) =~= b@);
                let ghost before = self.secs@;
                self.secs.push(
                    Section { heading: string_of(&h, 0, h.len()), body: string_of(&b, x, y) },
                );
                assert(h@.subrange(0, h@.len() as int) =~= h@);
                assert(sections_view(self.secs@) =~= sections_view(before).push(
                    SectionView { heading: h@, body: trim(b@) },
                ));
            },
            None => {},
        }
    }

    fn step(&mut self, line: &Vec<char>)
        ensures
            final(self).view() == body_step(old(self).view(), line@),
    {
        let ghost st = self.view();
        let inside = self.fence.feed(line);
        let h = if inside {
            None
        } else {
            heading(line)
        };
        match h {
            Some((level, text)) => {
                if level == 1 && self.title.len() == 0 && self.cur.is_none() {
                    self.title = text;
                    return;
                }
                if level == 2 {
                    self.finish_cur();
                    self.cur = Some((text, Vec::new(), false));
                    return;
                }
            },
            None => {},
        }
        assert(line@.subrange(0, line@.len() as int) =~= line@);
        let cur = self.cur.take();
        match cur {
            Some((hd, mut b, any)) => {
                let ghost b0 = b@;
                if any {
                    b.push('\n');
                    assert(b@ =~= b0 + seq!['\n']);
                } else {
                    assert(b@ =~= b0);
                }
                let ghost b1 = b@;
                extend_span(&mut b, line, 0, line.len());
                assert(b@ =~= b1 + line@);

                assert(b@ =~= join_push(b0, any, line@));
                self.cur = Some((hd, b, true));
            },
            None => {
                let ghost p0 = self.pre@;
                if self.pre_any {
                    self.pre.push('\n');
                }
                extend_span(&mut self.pre, line, 0, line.len());
                assert(self.pre@ =~= join_push(p0, st.pre_any, line@));
                self.pre_any = true;
            },
        }
    }
}

/// Split a body into its title, its preamble and its `##` sections. Deeper
/// headings stay inside the section that contains them.
pub fn parse_body(body: &Vec<char>) -> (r: (String, String, Vec<Section>))
    ensures
        (r.0@, r.1@, sections_view(r.2@)) == parse_body_spec(body@),
{
    let mut b = BodyBuilder {
        title: Vec::new(),
        pre: Vec::new(),
        pre_any: false,
        secs: Vec::new(),
        cur: None,
        fence: Fence::new(),
    };
    assert(b.view() == body_init()) by {
        assert(sections_view(b.secs@) =~= Seq::<SectionView>::empty());
    }
    let mut i: usize = 0;
    while i < body.len()
        invariant
            i <= body@.len(),
            body_from(body@, i as int, b.view()) == body_from(body@, 0, body_init()),
        decreases body.len() - i,
    {
        let e = find_char_from(body, i, '\n');
        let line = if e < body.len() && e > i && body[e - 1] == '\r' {
            slice_vec(body, i, e - 1)
        } else {
            slice_vec(body, i, e)
        };
        assert(line@ =~= line_at(body@, i as int));
        let bare = strip_trail_char(&line, '\r');
        b.step(&bare);
        if e >= body.len() {
            i = body.len();
        } else {
            i = e + 1;
        }
    }
    let ghost st = b.view();
    b.finish_cur();
    let (x, y) = trim_span(&b.pre, 0, b.pre.len());
    assert(b.pre@.subrange(0, b.pre@.len() as int) =~= b.pre@);
    assert(b.title@.subrange(0, b.title@.len() as int) =~= b.title@);
    (string_of(&b.title, 0, b.title.len()), string_of(&b.pre, x, y), b.secs)
}

} // verus!

verus! {

/// `s` without one leading byte order mark.
pub open spec fn strip_bom(s: Seq<char>) -> Seq<char> {
    if s.len() > 0 && s[0] == '\u{feff}' {
        s.drop_first()
    } else {
        s
    }
}

/// A line that closes the frontmatter: `---`, or YAML's other terminator `...`.
pub open spec fn is_delim(t: Seq<char>) -> bool {
    t == seq!['-', '-', '-'] || t == seq!['.', '.', '.']
}

/// The first line at or after `i` that closes the frontmatter: its start, and
/// where the text after it begins.
pub open spec fn find_close(s: Seq<char>, i: int) -> Option<(int, int)>
    decreases s.len() - i,
{
    if i < 0 || i >= s.len() {
        None
    } else {
        let e = next_char(s, i, '\n');
        proof {
            lemma_next_char(s, i, '\n');
        }
        let nx = if e < s.len() {
            e + 1
        } else {
            s.len() as int
        };
        if is_delim(trim(s.subrange(i, e))) {
            Some((i, nx))
        } else if e >= s.len() {
            None
        } else {
            find_close(s, e + 1)
        }
    }
}

/// The leading `---` block split off the body: (yaml, body). A page must
/// start with a `---` line, and the block must be closed.
pub open spec fn split_spec(text: Seq<char>, id: Seq<char>) -> Result<(Seq<char>, Seq<char>), ErrView> {
    let s = strip_bom(text);
    if s.len() == 0 {
        Err(ErrView::MissingFrontmatter(id))
    } else {
        let e0 = next_char(s, 0, '\n');
        if trim(s.subrange(0, e0)) != seq!['-', '-', '-'] {
            Err(ErrView::MissingFrontmatter(id))
        } else {
            let start = if e0 < s.len() {
                e0 + 1
            } else {
                s.len() as int
            };
            match find_close(s, start) {
                Some((o, n)) => Ok((s.subrange(start, o), s.subrange(n, s.len() as int))),
                None => Err(ErrView::UnterminatedFrontmatter(id)),
            }
        }
    }
}

/// The text of the line that starts at `j`, without its `\n`.
pub open spec fn line_from(s: Seq<char>, j: int) -> Seq<char> {
    s.subrange(j, next_char(s, j, '\n'))
}

/// A line starts at `j`, at or after `i`: `j` is `i` or follows a `\n`.
pub open spec fn line_start(s: Seq<char>, i: int, j: int) -> bool {
    i <= j < s.len() && (j == i || s[j - 1] == '\n')
}

proof fn lemma_find_close(s: Seq<char>, i: int)
    requires
        0 <= i <= s.len(),
    ensures
        match find_close(s, i) {
            Some((o, n)) => {
                &&& line_start(s, i, o)
                &&& is_delim(trim(line_from(s, o)))
                &&& n == (if next_char(s, o, '\n') < s.len() {
                    next_char(s, o, '\n') + 1
                } else {
                    s.len() as int
                })
                &&& forall|j: int| #[trigger] line_start(s, i, j) && j < o ==> !is_delim(trim(line_from(s, j)))
            },
            None => forall|j: int| #[trigger] line_start(s, i, j) ==> !is_delim(trim(line_from(s, j))),
        },
    decreases s.len() - i,
{
    if i < s.len() {
        let e = next_char(s, i, '\n');
        lemma_next_char(s, i, '\n');
        if !is_delim(trim(s.subrange(i, e))) && e < s.len() {
            lemma_find_close(s, e + 1);
            assert forall|j: int| #[trigger] line_start(s, i, j) && j != i implies line_start(s, e + 1, j) by {
                if line_start(s, i, j) && j != i {
                    if j <= e {
                        assert(s[j - 1] != '\n');
                    }
                }
            }
            match find_close(s, e + 1) {
                Some((o, n)) => {
                    assert(line_start(s, i, o));
                    assert forall|j: int| #[trigger] line_start(s, i, j) && j < o implies !is_delim(
                        trim(line_from(s, j)),
                    ) by {
                        if j != i {
                            assert(line_start(s, e + 1, j));
                        }
                    }
                },
                None => {
                    assert forall|j: int| #[trigger] line_start(s, i, j) implies !is_delim(
                        trim(line_from(s, j)),
                    ) by {
                        if j != i {
                            assert(line_start(s, e + 1, j));
                        }
                    }
                },
            }
        } else if !is_delim(trim(s.subrange(i, e))) {
            assert forall|j: int| #[trigger] line_start(s, i, j) implies !is_delim(trim(line_from(s, j))) by {
                if j != i {
                    assert(s[j - 1] != '\n');
                }
            }
        }
    }
}

/// Where the YAML starts: after the first line of `s`.
pub open spec fn yaml_start(s: Seq<char>) -> int {
    if next_char(s, 0, '\n') < s.len() {
        next_char(s, 0, '\n') + 1
    } else {
        s.len() as int
    }
}

/// The text opens a frontmatter block: its first line, trimmed, is `---`.
pub open spec fn opens_block(s: Seq<char>) -> bool {
    s.len() > 0 && trim(line_from(s, 0)) == seq!['-', '-', '-']
}

/// How a page's text splits, with one leading byte-order mark set aside:
/// no frontmatter when the text is empty or its first line, trimmed, is not
/// `---`; an unterminated one when no later line is `---` or `...`; and
/// otherwise the text is the opening line, the YAML, the first closing line
/// and the body, in that order.
pub proof fn law_split_frontmatter(text: Seq<char>, id: Seq<char>)
    ensures
        (split_spec(text, id) == Err::<(Seq<char>, Seq<char>), ErrView>(ErrView::MissingFrontmatter(id)))
            <==> !opens_block(strip_bom(text)),
        (split_spec(text, id) == Err::<(Seq<char>, Seq<char>), ErrView>(
            ErrView::UnterminatedFrontmatter(id),
        )) <==> (opens_block(strip_bom(text)) && forall|j: int|
            #[trigger] line_start(strip_bom(text), yaml_start(strip_bom(text)), j) ==> !is_delim(
                trim(line_from(strip_bom(text), j)),
            )),
        split_spec(text, id) matches Ok((y, b)) ==> exists|o: int, n: int|
            #![trigger line_from(strip_bom(text), o), strip_bom(text).subrange(o, n)]
            line_start(strip_bom(text), yaml_start(strip_bom(text)), o) && is_delim(
                trim(line_from(strip_bom(text), o)),
            ) && strip_bom(text) == strip_bom(text).subrange(0, yaml_start(strip_bom(text))) + y
                + strip_bom(text).subrange(o, n) + b,
{
    let s = strip_bom(text);
    let e0 = next_char(s, 0, '\n');
    lemma_next_char(s, 0, '\n');
    let start = if e0 < s.len() {
        e0 + 1
    } else {
        s.len() as int
    };
    lemma_find_close(s, start);
    assert(start == yaml_start(s));
    let opened = s.len() > 0 && trim(line_from(s, 0)) == seq!['-', '-', '-'];
    if opened {
        match find_close(s, start) {
            Some((o, n)) => {
                let y = s.subrange(start, o);
                let b = s.subrange(n, s.len() as int);
                assert(split_spec(text, id) == Ok::<(Seq<char>, Seq<char>), ErrView>((y, b)));
                let e = next_char(s, o, '\n');
                lemma_next_char(s, o, '\n');
                assert(s =~= s.subrange(0, start) + y + s.subrange(o, n) + b);
                assert(line_start(s, start, o) && is_delim(trim(line_from(s, o))));
                assert(!(forall|j: int|
                    #[trigger] line_start(s, start, j) ==> !is_delim(trim(line_from(s, j)))));
            },
            None => {
                assert(split_spec(text, id) == Err::<(Seq<char>, Seq<char>), ErrView>(
                    ErrView::UnterminatedFrontmatter(id),
                ));
            },
        }
    } else {
        assert(split_spec(text, id) == Err::<(Seq<char>, Seq<char>), ErrView>(
            ErrView::MissingFrontmatter(id),
        ));
    }
}

fn line_is_delim(v: &Vec<char>, i: usize, e: usize, dot: bool) -> (r: bool)
    requires
        i <= e <= v@.len(),
    ensures
        r == (trim(v@.subrange(i as int, e as int)) == (if dot {
            seq!['.', '.', '.']
        } else {
            seq!['-', '-', '-']
        })),
{
    let (a, b) = trim_span(v, i, e);
    let c = if dot {
        '.'
    } else {
        '-'
    };
    let ghost want = if dot {
        seq!['.', '.', '.']
    } else {
        seq!['-', '-', '-']
    };
    if b - a == 3 && v[a] == c && v[a + 1] == c && v[a + 2] == c {
        assert(v@.subrange(a as int, b as int) =~= want);
        true
    } else {
        assert(v@.subrange(a as int, b as int) != want) by {
            let w = v@.subrange(a as int, b as int);
            assert(want.len() == 3);
            assert(want[0] == c && want[1] == c && want[2] == c);
            if w == want {
                assert(b - a == 3);
                assert(w[0] == v@[a as int] && w[1] == v@[a + 1] && w[2] == v@[a + 2]);
                assert(false);
            }
        }
        false
    }
}

fn split_frontmatter(text: &Vec<char>, id: &str) -> (r: Result<(Vec<char>, Vec<char>), WikiError>)
    ensures
        match r {
            Ok((y, b)) => split_spec(text@, id@) == Ok::<_, ErrView>((y@, b@)),
            Err(e) => split_spec(text@, id@) == Err::<(Seq<char>, Seq<char>), _>(e@),
        },
{
    let s = if text.len() > 0 && text[0] == '\u{feff}' {
        slice_vec(text, 1, text.len())
    } else {
        assert(text@.subrange(0, text@.len() as int) =~= text@);
        slice_vec(text, 0, text.len())
    };
    assert(s@ == strip_bom(text@));
    if s.len() == 0 {
        return Err(WikiError::MissingFrontmatter { path: String::from_str(id) });
    }
    let e0 = find_char_from(&s, 0, '\n');
    if !line_is_delim(&s, 0, e0, false) {
        return Err(WikiError::MissingFrontmatter { path: String::from_str(id) });
    }
    let start = if e0 < s.len() {
        e0 + 1
    } else {
        s.len()
    };
    let mut i = start;
    while i < s.len()
        invariant
            start <= i <= s@.len(),
            find_close(s@, i as int) == find_close(s@, start as int),
            s@ == strip_bom(text@),
            s@.len() > 0,
            e0 == next_char(s@, 0, '\n'),
            trim(s@.subrange(0, e0 as int)) == seq!['-', '-', '-'],
            start == (if e0 < s@.len() {
                e0 + 1
            } else {
                s@.len() as int
            }),
        decreases s.len() - i,
    {
        let e = find_char_from(&s, i, '\n');
        if line_is_delim(&s, i, e, false) || line_is_delim(&s, i, e, true) {
            let nx = if e < s.len() {
                e + 1
            } else {
                s.len()
            };
            assert(is_delim(trim(s@.subrange(i as int, e as int))));
            assert(find_close(s@, i as int) == Some((i as int, nx as int)));
            let y = slice_vec(&s, start, i);
            let b = slice_vec(&s, nx, s.len());
            return Ok((y, b));
        }
        if e >= s.len() {
            i = s.len();
        } else {
            i = e + 1;
        }
    }
    Err(WikiError::UnterminatedFrontmatter { path: String::from_str(id) })
}

pub open spec fn ascii_lower(c: char) -> char {
    if 'A' <= c <= 'Z' {
        ((c as u32) + 32) as char
    } else {
        c
    }
}

/// Equal ignoring ASCII case: what `str::eq_ignore_ascii_case` tests.
pub open spec fn eq_ignore_case(a: Seq<char>, b: Seq<char>) -> bool {
    a.len() == b.len() && forall|k: int| 0 <= k < a.len() ==> ascii_lower(a[k]) == ascii_lower(
        b[k],
    )
}

pub fn ascii_lower_exec(c: char) -> (r: char)
    ensures
        r == ascii_lower(c),
{
    if 'A' <= c && c <= 'Z' {
        let n: u32 = c as u32;
        let b: u8 = (n + 32) as u8;
        b as char
    } else {
        c
    }
}

pub fn eq_ignore_case_exec(a: &Vec<char>, b: &Vec<char>) -> (r: bool)
    ensures
        r == eq_ignore_case(a@, b@),
{
    if a.len() != b.len() {
        return false;
    }
    let mut k: usize = 0;
    while k < a.len()
        invariant
            a@.len() == b@.len(),
            k <= a@.len(),
            forall|j: int| 0 <= j < k ==> ascii_lower(a@[j]) == ascii_lower(b@[j]),
        decreases a.len() - k,
    {
        if ascii_lower_exec(a[k]) != ascii_lower_exec(b[k]) {
            return false;
        }
        k += 1;
    }
    true
}

#[derive(Debug, Clone, PartialEq, Eq)]
pub struct Page {
    /// Root-relative path without `.md`, forward slashes everywhere. This is
    /// what a `[[wiki-link]]` names and what the index keys on.
    pub id: String,
    pub path: String,
    pub frontmatter: Frontmatter,
    /// The `#` heading. Empty when the page has none.
    pub title: String,
    /// Anything between the title and the first `##`. Usually empty.
    pub preamble: String,
    pub sections: Vec<Section>,
    /// Every link in the body, in the order they appear, duplicates included.
    pub links: Vec<WikiLink>,
    /// The whole body after the frontmatter, trimmed.
    pub body: String,
}

pub struct PageView {
    pub id: Seq<char>,
    pub path: Seq<char>,
    pub fm: FmView,
    pub title: Seq<char>,
    pub preamble: Seq<char>,
    pub sections: Seq<SectionView>,
    pub links: Seq<LinkView>,
    pub body: Seq<char>,
}

impl View for Page {
    type V = PageView;

    open spec fn view(&self) -> PageView {
        PageView {
            id: self.id@,
            path: self.path@,
            fm: self.frontmatter@,
            title: self.title@,
            preamble: self.preamble@,
            sections: sections_view(self.sections@),
            links: links_view(self.links@),
            body: self.body@,
        }
    }
}

/// The index of the first section whose heading matches, ignoring ASCII case.
pub open spec fn section_index(secs: Seq<SectionView>, heading: Seq<char>) -> Option<int>
    decreases secs.len(),
{
    if secs.len() == 0 {
        None
    } else if eq_ignore_case(secs[0].heading, heading) {
        Some(0)
    } else {
        match section_index(secs.drop_first(), heading) {
            Some(k) => Some(k + 1),
            None => None,
        }
    }
}

impl Page {
    /// Look a section up by heading, ignoring case. The schema fixes the
    /// spelling, but a hand-edited page may not.
    pub fn section(&self, heading: &str) -> (r: Option<&Section>)
        ensures
            match r {
                Some(s) => section_index(self@.sections, heading@) matches Some(k) && s@
                    == self@.sections[k],
                None => section_index(self@.sections, heading@) is None,
            },
    {
        let h = chars_of(heading);
        let ghost secs = self@.sections;
        let mut k: usize = 0;
        assert(secs.subrange(0, secs.len() as int) =~= secs);
        while k < self.sections.len()
            invariant
                k <= self.sections@.len(),
                secs == sections_view(self.sections@),
                h@ == heading@,
                match section_index(secs.subrange(k as int, secs.len() as int), heading@) {
                    Some(j) => section_index(secs, heading@) == Some(j + k),
                    None => section_index(secs, heading@) is None,
                },
            decreases self.sections.len() - k,
        {
            let hv = chars_of(self.sections[k].heading.as_str());
            assert(secs.subrange(k as int, secs.len() as int).drop_first() =~= secs.subrange(
                k + 1,
                secs.len() as int,
            ));
            if eq_ignore_case_exec(&hv, &h) {
                return Some(&self.sections[k]);
            }
            k += 1;
        }
        None
    }
}

/// A page parsed from the text of the file at `path` under `root`.
pub open spec fn parse_spec(root: Seq<char>, path: Seq<char>, text: Seq<char>) -> Result<
    PageView,
    ErrView,
> {
    match page_id_spec(root, path) {
        None => Err(ErrView::OutsideRoot(path)),
        Some(id) => match split_spec(text, id) {
            Err(e) => Err(e),
            Ok((yaml, body)) => match frontmatter_spec(yaml, id, chrono_date()) {
                Err(e) => Err(e),
                Ok(fm) => {
                    let (title, preamble, sections) = parse_body_spec(body);
                    Ok(
                        PageView {
                            id,
                            path,
                            fm,
                            title,
                            preamble,
                            sections,
                            links: links_spec(root, body),
                            body: trim(body),
                        },
                    )
                },
            },
        },
    }
}

/// Parse the text of one page.
pub fn parse(root: &str, path: &str, text: &str) -> (r: Result<Page, WikiError>)
    ensures
        res_view(r) == parse_spec(root@, path@, text@),
{
    let id = page_id(root, path)?;
    let v = chars_of(text);
    let (yaml, body) = match split_frontmatter(&v, id.as_str()) {
        Ok(p) => p,
        Err(e) => return Err(e),
    };
    let frontmatter = match parse_frontmatter(&yaml, id.as_str()) {
        Ok(f) => f,
        Err(e) => return Err(e),
    };
    let (title, preamble, sections) = parse_body(&body);
    let links = links_in_chars(root, &body);
    let (a, b) = trim_span(&body, 0, body.len());
    assert(body@.subrange(0, body@.len() as int) =~= body@);
    let trimmed = string_of(&body, a, b);
    Ok(
        Page {
            id,
            path: String::from_str(path),
            frontmatter,
            title,
            preamble,
            sections,
            links,
            body: trimmed,
        },
    )
}

} // verus!
