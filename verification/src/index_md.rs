//! The text of `index.md`, derived from the pages.
//!
//! The index is what the agent reads to decide whether a subject already has
//! a page, so a stale index causes exactly the duplication the schema exists
//! to prevent. It is derived, never hand-maintained: a pure function of the
//! pages. Reading and writing the file is left to the caller.

use vstd::prelude::*;
use crate::frontmatter::{status_name, status_named, PageType, Status};
use crate::text::{
    chars_eq, chars_of, find_char_from, find_pair, find_pair_exec, lemma_find_pair, lemma_next_char,
    next_char, push_span, skip_ws_back, slice_vec, span_is, string_of, trim, trim_end, trim_end_char,
    trim_span,
};
use crate::lint::pages_view;
use crate::strings::{
    contains_seq, lemma_contains_left, lemma_contains_part, lemma_contains_right, lemma_contains_self,
    lemma_seq_lt_asymmetric, lemma_seq_lt_irreflexive, lemma_seq_lt_total, lemma_seq_lt_transitive,
    seq_lt, seq_lt_exec,
};
use crate::wiki::{strip_trail_char, Page, PageView};

verus! {

/// Sections sort by this: the project page first, because that is what a
/// reader wants; gotchas last, because they belong to no project.
pub open spec fn rank_of(t: PageType) -> u8 {
    match t {
        PageType::Project => 0,
        PageType::Component => 1,
        PageType::Decision => 2,
        PageType::Open => 3,
        PageType::Attempt => 4,
        PageType::Gotcha => 5,
    }
}

pub fn type_rank(t: PageType) -> (r: u8)
    ensures
        r == rank_of(t),
{
    match t {
        PageType::Project => 0,
        PageType::Component => 1,
        PageType::Decision => 2,
        PageType::Open => 3,
        PageType::Attempt => 4,
        PageType::Gotcha => 5,
    }
}

pub open spec fn heading_of(t: PageType) -> Seq<char> {
    match t {
        PageType::Project => "Overview"@,
        PageType::Component => "Components"@,
        PageType::Decision => "Decisions"@,
        PageType::Open => "Open questions"@,
        PageType::Attempt => "Attempts"@,
        PageType::Gotcha => "Gotchas"@,
    }
}

pub fn type_heading(t: PageType) -> (r: &'static str)
    ensures
        r@ == heading_of(t),
{
    match t {
        PageType::Project => "Overview",
        PageType::Component => "Components",
        PageType::Decision => "Decisions",
        PageType::Open => "Open questions",
        PageType::Attempt => "Attempts",
        PageType::Gotcha => "Gotchas",
    }
}

/// A marker for pages the reader should not treat as live.
pub open spec fn note_of(s: Status) -> Seq<char> {
    match s {
        Status::Current => ""@,
        Status::Superseded => " — superseded"@,
        Status::Abandoned => " — abandoned"@,
        Status::Stale => " — stale"@,
    }
}

pub fn status_note(s: Status) -> (r: &'static str)
    ensures
        r@ == note_of(s),
{
    match s {
        Status::Current => "",
        Status::Superseded => " — superseded",
        Status::Abandoned => " — abandoned",
        Status::Stale => " — stale",
    }
}

/// What `char::to_uppercase` yields for `c`. For an ASCII letter it is the
/// capital, and any other ASCII character maps to itself.
pub uninterp spec fn uppercase_of(c: char) -> Seq<char>;

/// `char::to_uppercase`, collected into a `String`: named, and for ASCII the
/// documented mapping.
#[verifier::external_body]
fn to_uppercase(c: char) -> (r: String)
    ensures
        r@ == uppercase_of(c),
        'a' <= c <= 'z' ==> r@ == seq![((c as u32) - 32) as char],
        (c as u32) < 128 && !('a' <= c <= 'z') ==> r@ == seq![c],
{
    c.to_uppercase().collect::<String>()
}

/// The part of `id` after its last `/`.
pub open spec fn last_segment(id: Seq<char>) -> Seq<char>
    decreases id.len(),
{
    if id.len() == 0 {
        id
    } else if id.last() == '/' {
        seq![]
    } else {
        last_segment(id.drop_last()).push(id.last())
    }
}

/// `-` and `_` opened out into spaces.
pub open spec fn spaced(s: Seq<char>) -> Seq<char> {
    s.map_values(|c: char| if c == '-' || c == '_' { ' ' } else { c })
}

/// A last-resort label for a page with no title: its final path segment, with
/// hyphens and underscores opened out and the first letter capitalised.
pub open spec fn readable_spec(id: Seq<char>) -> Seq<char> {
    let last = spaced(last_segment(id));
    if last.len() == 0 {
        last
    } else {
        uppercase_of(last[0]) + last.drop_first()
    }
}

/// The capital of an ASCII letter; any other character as it is.
pub open spec fn ascii_upper(c: char) -> char {
    if 'a' <= c <= 'z' {
        ((c as u32) - 32) as char
    } else {
        c
    }
}

pub fn readable_id(id: &str) -> (r: String)
    ensures
        r@ == readable_spec(id@),
        ({
            let last = spaced(last_segment(id@));
            last.len() > 0 && (last[0] as u32) < 128 ==> r@ == seq![ascii_upper(last[0])]
                + last.drop_first()
        }),
{
    let v = chars_of(id);
    let mut start = v.len();
    assert(v@.subrange(0, v@.len() as int) =~= v@);
    assert(v@.subrange(v@.len() as int, v@.len() as int) =~= Seq::<char>::empty());
    assert(last_segment(v@) + Seq::<char>::empty() =~= last_segment(v@));
    while start > 0 && v[start - 1] != '/'
        invariant
            start <= v@.len(),
            last_segment(v@) == last_segment(v@.subrange(0, start as int)) + v@.subrange(
                start as int,
                v@.len() as int,
            ),
        decreases start,
    {
        let ghost w = v@.subrange(0, start as int);
        assert(w.drop_last() =~= v@.subrange(0, start - 1));
        assert(v@.subrange(start - 1, v@.len() as int) =~= seq![w.last()] + v@.subrange(
            start as int,
            v@.len() as int,
        ));
        start -= 1;
    }
    proof {
        assert(v@.subrange(0, v@.len() as int) =~= v@);
        let w = v@.subrange(0, start as int);
        if start > 0 {
            assert(w.last() == '/');
        }
        assert(last_segment(w) =~= Seq::<char>::empty());
        assert(last_segment(v@) =~= v@.subrange(start as int, v@.len() as int));
    }
    let mut last: Vec<char> = Vec::new();
    let mut k = start;
    while k < v.len()
        invariant
            start <= k <= v@.len(),
            last@ == spaced(v@.subrange(start as int, k as int)),
        decreases v.len() - k,
    {
        let c = v[k];
        if c == '-' || c == '_' {
            last.push(' ');
        } else {
            last.push(c);
        }
        assert(spaced(v@.subrange(start as int, k + 1)) =~= spaced(
            v@.subrange(start as int, k as int),
        ).push(if c == '-' || c == '_' {
            ' '
        } else {
            c
        }));
        k += 1;
    }
    if last.len() == 0 {
        return String::new();
    }
    let mut out = to_uppercase(last[0]);
    push_span(&mut out, &last, 1, last.len());
    assert(last@.subrange(1, last@.len() as int) =~= last@.drop_first());
    out
}


/// A paragraph worth quoting: not empty, not a code fence, not a list.
pub open spec fn good_para(p: Seq<char>) -> bool {
    &&& p.len() > 0
    &&& !(p.len() >= 3 && p[0] == '`' && p[1] == '`' && p[2] == '`')
    &&& p[0] != '-'
}

/// The first good paragraph of `s` from index `i` on, trimmed; paragraphs are
/// the pieces between `\n\n` separators.
pub open spec fn first_para(s: Seq<char>, i: int) -> Seq<char>
    decreases s.len() - i,
{
    if i < 0 || i > s.len() {
        seq![]
    } else {
        let j = find_pair(s, i, '\n');
        proof {
            lemma_find_pair(s, i, '\n');
        }
        let p = trim(s.subrange(i, j));
        if good_para(p) {
            p
        } else if j >= s.len() {
            seq![]
        } else {
            first_para(s, j + 2)
        }
    }
}

/// The lines of `p` from index `i` on, each trimmed, joined with spaces.
pub open spec fn join_lines_from(p: Seq<char>, i: int) -> Seq<char>
    decreases p.len() - i,
{
    if i < 0 || i > p.len() {
        seq![]
    } else {
        let e = next_char(p, i, '\n');
        proof {
            lemma_next_char(p, i, '\n');
        }
        let line = trim(p.subrange(i, e));
        if e >= p.len() {
            line
        } else {
            line + seq![' '] + join_lines_from(p, e + 1)
        }
    }
}

/// The lines of a paragraph, trimmed and joined with spaces: Markdown wraps
/// prose across lines, so one line alone cuts a sentence short.
pub open spec fn join_lines(p: Seq<char>) -> Seq<char> {
    if p.len() == 0 {
        seq![]
    } else {
        join_lines_from(p, 0)
    }
}

/// The first index at or after `i` where `s` reads `a` then `b`, or `s.len()`.
pub open spec fn find_two(s: Seq<char>, i: int, a: char, b: char) -> int
    decreases s.len() - i,
{
    if i < 0 || i + 1 >= s.len() {
        s.len() as int
    } else if s[i] == a && s[i + 1] == b {
        i
    } else {
        find_two(s, i + 1, a, b)
    }
}

/// The half-line of description the schema asks for: the page's own first
/// sentence, cut at 100 characters.
pub open spec fn blurb_spec(p: PageView) -> Seq<char> {
    let source = if p.sections.len() > 0 {
        p.sections[0].body
    } else {
        p.preamble
    };
    let para = join_lines(first_para(source, 0));
    let sentence = trim(trim_end_char(para.subrange(0, find_two(para, 0, '.', ' ')), '.'));
    if sentence.len() > 100 {
        trim_end(sentence.subrange(0, 97)) + "…"@
    } else {
        sentence
    }
}

fn first_para_exec(s: &Vec<char>) -> (r: Vec<char>)
    ensures
        r@ == first_para(s@, 0),
{
    let mut i: usize = 0;
    while i <= s.len()
        invariant
            i <= s@.len() + 1,
            first_para(s@, i as int) == first_para(s@, 0),
        decreases s.len() + 1 - i,
    {
        let j = find_pair_exec(s, i, '\n');
        proof {
            lemma_find_pair(s@, i as int, '\n');
        }
        let (a, b) = trim_span(s, i, j);
        let good = b > a && !(b - a >= 3 && s[a] == '`' && s[a + 1] == '`' && s[a + 2] == '`')
            && s[a] != '-';
        proof {
            let p = trim(s@.subrange(i as int, j as int));
            assert(p == s@.subrange(a as int, b as int));
            if b > a {
                assert(p[0] == s@[a as int]);
                if b - a >= 3 {
                    assert(p[1] == s@[a + 1] && p[2] == s@[a + 2]);
                }
            }
            assert(good == good_para(p));
        }
        if good {
            return slice_vec(s, a, b);
        }
        if j >= s.len() {
            return Vec::new();
        }
        i = j + 2;
    }
    Vec::new()
}

fn join_lines_exec(p: &Vec<char>) -> (r: Vec<char>)
    ensures
        r@ == join_lines(p@),
{
    let mut out: Vec<char> = Vec::new();
    if p.len() == 0 {
        return out;
    }
    let mut i: usize = 0;
    while i <= p.len()
        invariant
            i <= p@.len(),
            p@.len() > 0,
            out@ + join_lines_from(p@, i as int) == join_lines(p@),
        decreases p.len() - i,
    {
        let e = find_char_from(p, i, '\n');
        let (a, b) = trim_span(p, i, e);
        let ghost o = out@;
        let mut k = a;
        while k < b
            invariant
                a <= k <= b <= p@.len(),
                out@ == o + p@.subrange(a as int, k as int),
            decreases b - k,
        {
            out.push(p[k]);
            assert(p@.subrange(a as int, k + 1) =~= p@.subrange(a as int, k as int).push(
                p@[k as int],
            ));
            k += 1;
        }
        if e >= p.len() {
            assert(join_lines_from(p@, i as int) == trim(p@.subrange(i as int, e as int)));
            return out;
        }
        out.push(' ');
        assert(out@ + join_lines_from(p@, e + 1) =~= o + join_lines_from(p@, i as int));
        i = e + 1;
    }
    out
}

fn find_two_exec(s: &Vec<char>, a: char, b: char) -> (r: usize)
    ensures
        r == find_two(s@, 0, a, b),
        r <= s@.len(),
{
    let mut k: usize = 0;
    while k < s.len() && s.len() - k >= 2 && !(s[k] == a && s[k + 1] == b)
        invariant
            k <= s@.len(),
            find_two(s@, k as int, a, b) == find_two(s@, 0, a, b),
        decreases s.len() - k,
    {
        k += 1;
    }
    if k >= s.len() || s.len() - k < 2 {
        s.len()
    } else {
        k
    }
}

/// The first sentence of the page's first section (or its preamble), cut at
/// 100 characters.
pub fn blurb(page: &Page) -> (r: String)
    ensures
        r@ == blurb_spec(page@),
{
    let source = if page.sections.len() > 0 {
        assert(page@.sections[0].body == page.sections@[0].body@);
        chars_of(page.sections[0].body.as_str())
    } else {
        chars_of(page.preamble.as_str())
    };
    let para = join_lines_exec(&first_para_exec(&source));
    let cut = find_two_exec(&para, '.', ' ');
    let head = slice_vec(&para, 0, cut);
    let bare = strip_trail_char(&head, '.');
    let (a, b) = trim_span(&bare, 0, bare.len());
    assert(bare@.subrange(0, bare@.len() as int) =~= bare@);
    let sentence = slice_vec(&bare, a, b);
    if sentence.len() > 100 {
        let e = skip_ws_back(&sentence, 0, 97);
        let mut out = string_of(&sentence, 0, e);
        out.append("…");
        out
    } else {
        assert(sentence@.subrange(0, sentence@.len() as int) =~= sentence@);
        string_of(&sentence, 0, sentence.len())
    }
}


/// The group a page is listed under: its project, or `None` for a page of
/// no project, listed under Concepts.
pub open spec fn group_key(p: PageView) -> Option<Seq<char>> {
    p.fm.project
}

/// Group `a` comes before group `b`: projects by name, and Concepts after
/// every project, whatever the project is called.
pub open spec fn group_before(a: Option<Seq<char>>, b: Option<Seq<char>>) -> bool {
    match (a, b) {
        (Some(x), Some(y)) => seq_lt(x, y),
        (Some(_), None) => true,
        (None, _) => false,
    }
}

/// `a` is listed before `b`: by group, then by type rank, then by id.
pub open spec fn listed_before(a: PageView, b: PageView) -> bool {
    ||| group_before(group_key(a), group_key(b))
    ||| group_key(a) == group_key(b) && rank_of(a.fm.page_type) < rank_of(b.fm.page_type)
    ||| group_key(a) == group_key(b) && rank_of(a.fm.page_type) == rank_of(b.fm.page_type)
        && seq_lt(a.id, b.id)
}

/// The first index of a least element of `s[i..]`, with `best` the least of
/// `s[..i]` so far.
pub open spec fn least_from(s: Seq<PageView>, i: int, best: int) -> int
    decreases s.len() - i,
{
    if i < 0 || i >= s.len() {
        best
    } else if listed_before(s[i], s[best]) {
        least_from(s, i + 1, i)
    } else {
        least_from(s, i + 1, best)
    }
}

pub proof fn lemma_least_from(s: Seq<PageView>, i: int, best: int)
    requires
        0 <= best < s.len(),
        0 <= i,
    ensures
        0 <= least_from(s, i, best) < s.len(),
    decreases s.len() - i,
{
    if i < s.len() {
        if listed_before(s[i], s[best]) {
            lemma_least_from(s, i + 1, i);
        } else {
            lemma_least_from(s, i + 1, best);
        }
    }
}

/// The pages in listing order: the first least page, then the rest in
/// listing order. Pages that compare equal keep their input order.
pub open spec fn listing_order(s: Seq<PageView>) -> Seq<PageView>
    decreases s.len(),
{
    if s.len() == 0 {
        s
    } else {
        let m = least_from(s, 1, 0);
        proof {
            lemma_least_from(s, 1, 0);
        }
        seq![s[m]] + listing_order(s.remove(m))
    }
}

pub open spec fn group_title(key: Option<Seq<char>>) -> Seq<char> {
    match key {
        Some(x) => x,
        None => "Concepts"@,
    }
}

/// The `## group` heading that opens the group of `s[i]`, if `s[i]` opens it.
pub open spec fn group_head(s: Seq<PageView>, i: int) -> Seq<char> {
    if i == 0 || group_key(s[i - 1]) != group_key(s[i]) {
        "\n## "@ + group_title(group_key(s[i])) + "\n"@
    } else {
        seq![]
    }
}

/// The `### type` heading above `s[i]`, when it starts a group or a type.
pub open spec fn type_head(s: Seq<PageView>, i: int) -> Seq<char> {
    if i == 0 || group_key(s[i - 1]) != group_key(s[i]) || s[i - 1].fm.page_type
        != s[i].fm.page_type {
        "\n### "@ + heading_of(s[i].fm.page_type) + "\n\n"@
    } else {
        seq![]
    }
}

/// What a link to the page shows: its title, or a name made from its id.
pub open spec fn label_of(p: PageView) -> Seq<char> {
    if trim(p.title).len() == 0 {
        readable_spec(p.id)
    } else {
        trim(p.title)
    }
}

/// One line of the index: `[[id|Title]]` keeps the id as the link target
/// while showing the claim.
pub open spec fn entry_line(p: PageView) -> Seq<char> {
    let text = blurb_spec(p);
    "- [["@ + p.id + "|"@ + label_of(p) + "]]"@ + (if text.len() == 0 {
        seq![]
    } else {
        " — "@ + text
    }) + note_of(p.fm.status) + "\n"@
}

/// The listing of `s[..k]`.
pub open spec fn listing_upto(s: Seq<PageView>, k: int) -> Seq<char>
    decreases k,
{
    if k <= 0 {
        seq![]
    } else {
        listing_upto(s, k - 1) + group_head(s, k - 1) + type_head(s, k - 1) + entry_line(s[k - 1])
    }
}

pub open spec fn intro() -> Seq<char> {
    "# Baton index\n\nEvery page, grouped by project and then by type. Derived from the tree — edit the tree, not this file.\n"@
}

pub open spec fn no_pages_note() -> Seq<char> {
    "\n_No pages yet. Run `/baton` at the end of a working session and the agent will propose the first ones._\n"@
}

/// The whole of `index.md` for `pages`, which may arrive in any order.
pub open spec fn render_spec(pages: Seq<PageView>) -> Seq<char> {
    if pages.len() == 0 {
        intro() + no_pages_note()
    } else {
        let s = listing_order(pages);
        intro() + listing_upto(s, s.len() as int)
    }
}

fn same_group(a: &Page, b: &Page) -> (r: bool)
    ensures
        r == (group_key(a@) == group_key(b@)),
{
    match (&a.frontmatter.project, &b.frontmatter.project) {
        (Some(x), Some(y)) => chars_eq(&chars_of(x.as_str()), &chars_of(y.as_str())),
        (None, None) => true,
        _ => false,
    }
}

fn group_before_exec(a: &Page, b: &Page) -> (r: bool)
    ensures
        r == group_before(group_key(a@), group_key(b@)),
{
    match (&a.frontmatter.project, &b.frontmatter.project) {
        (Some(x), Some(y)) => seq_lt_exec(&chars_of(x.as_str()), &chars_of(y.as_str())),
        (Some(_), None) => true,
        (None, _) => false,
    }
}

fn listed_before_exec(a: &Page, b: &Page) -> (r: bool)
    ensures
        r == listed_before(a@, b@),
{
    if group_before_exec(a, b) {
        return true;
    }
    if !same_group(a, b) {
        return false;
    }
    let ra = type_rank(a.frontmatter.page_type);
    let rb = type_rank(b.frontmatter.page_type);
    if ra < rb {
        return true;
    }
    if ra != rb {
        return false;
    }
    seq_lt_exec(&chars_of(a.id.as_str()), &chars_of(b.id.as_str()))
}

pub open spec fn picked(pv: Seq<PageView>, ix: Seq<usize>) -> Seq<PageView> {
    ix.map_values(|i: usize| pv[i as int])
}

fn least_pos(pages: &[Page], rest: &Vec<usize>) -> (r: usize)
    requires
        rest@.len() > 0,
        forall|j: int| 0 <= j < rest@.len() ==> #[trigger] rest@[j] < pages@.len(),
    ensures
        r < rest@.len(),
        r == least_from(picked(pages_view(pages@), rest@), 1, 0),
{
    let ghost s = picked(pages_view(pages@), rest@);
    let mut best: usize = 0;
    let mut i: usize = 1;
    while i < rest.len()
        invariant
            1 <= i <= rest@.len(),
            best < i,
            s == picked(pages_view(pages@), rest@),
            forall|j: int| 0 <= j < rest@.len() ==> #[trigger] rest@[j] < pages@.len(),
            least_from(s, i as int, best as int) == least_from(s, 1, 0),
        decreases rest.len() - i,
    {
        assert(s[i as int] == pages@[rest@[i as int] as int]@);
        assert(s[best as int] == pages@[rest@[best as int] as int]@);
        if listed_before_exec(&pages[rest[i]], &pages[rest[best]]) {
            best = i;
        }
        i += 1;
    }
    best
}

/// The positions of `pages` in listing order.
fn listing_positions(pages: &[Page]) -> (r: Vec<usize>)
    ensures
        forall|j: int| 0 <= j < r@.len() ==> #[trigger] r@[j] < pages@.len(),
        picked(pages_view(pages@), r@) == listing_order(pages_view(pages@)),
{
    let ghost pv = pages_view(pages@);
    let mut rest: Vec<usize> = Vec::new();
    let mut k: usize = 0;
    while k < pages.len()
        invariant
            k <= pages@.len(),
            rest@.len() == k,
            forall|j: int| 0 <= j < k ==> #[trigger] rest@[j] == j,
        decreases pages.len() - k,
    {
        rest.push(k);
        k += 1;
    }
    assert(picked(pv, rest@) =~= pv);
    let mut order: Vec<usize> = Vec::new();
    assert(picked(pv, order@) =~= Seq::<PageView>::empty());
    while rest.len() > 0
        invariant
            pv == pages_view(pages@),
            forall|j: int| 0 <= j < rest@.len() ==> #[trigger] rest@[j] < pages@.len(),
            forall|j: int| 0 <= j < order@.len() ==> #[trigger] order@[j] < pages@.len(),
            picked(pv, order@) + listing_order(picked(pv, rest@)) == listing_order(pv),
        decreases rest@.len(),
    {
        let m = least_pos(pages, &rest);
        let ghost rv = picked(pv, rest@);
        let ghost ov = picked(pv, order@);
        order.push(rest[m]);
        let gone = rest.remove(m);
        assert(picked(pv, rest@) =~= rv.remove(m as int));
        assert(picked(pv, order@) =~= ov.push(rv[m as int]));
        assert(picked(pv, order@) + listing_order(picked(pv, rest@)) =~= ov + listing_order(rv));
    }
    assert(listing_order(picked(pv, rest@)) =~= Seq::<PageView>::empty());
    assert(picked(pv, order@) + Seq::<PageView>::empty() =~= picked(pv, order@));
    order
}


fn label_exec(p: &Page) -> (r: String)
    ensures
        r@ == label_of(p@),
{
    let t = chars_of(p.title.as_str());
    let (a, b) = trim_span(&t, 0, t.len());
    assert(t@.subrange(0, t@.len() as int) =~= t@);
    if a == b {
        readable_id(p.id.as_str())
    } else {
        string_of(&t, a, b)
    }
}

fn push_entry(out: &mut String, p: &Page)
    ensures
        final(out)@ == old(out)@ + entry_line(p@),
{
    let ghost o = out@;
    let text = blurb(p);
    let label = label_exec(p);
    out.append("- [[");
    out.append(p.id.as_str());
    out.append("|");
    out.append(label.as_str());
    out.append("]]");
    if text.as_str().unicode_len() > 0 {
        out.append(" — ");
        out.append(text.as_str());
    }
    out.append(status_note(p.frontmatter.status));
    out.append("\n");
    assert(out@ =~= o + entry_line(p@));
}

fn push_heads(out: &mut String, pages: &[Page], order: &Vec<usize>, i: usize)
    requires
        i < order@.len(),
        forall|j: int| 0 <= j < order@.len() ==> #[trigger] order@[j] < pages@.len(),
    ensures
        final(out)@ == old(out)@ + group_head(picked(pages_view(pages@), order@), i as int)
            + type_head(picked(pages_view(pages@), order@), i as int),
{
    let ghost s = picked(pages_view(pages@), order@);
    let ghost o = out@;
    let p = &pages[order[i]];
    assert(s[i as int] == p@);
    let mut new_group = i == 0;
    if i > 0 {
        let q = &pages[order[i - 1]];
        assert(s[i - 1] == q@);
        new_group = !same_group(q, p);
    }
    let new_type = new_group || pages[order[i - 1]].frontmatter.page_type
        != p.frontmatter.page_type;
    if new_group {
        out.append("\n## ");
        match &p.frontmatter.project {
            Some(x) => out.append(x.as_str()),
            None => out.append("Concepts"),
        }
        out.append("\n");
    }
    assert(out@ =~= o + group_head(s, i as int));
    let ghost o2 = out@;
    if new_type {
        out.append("\n### ");
        out.append(type_heading(p.frontmatter.page_type));
        out.append("\n\n");
    }
    assert(out@ =~= o2 + type_head(s, i as int));
}

/// The whole of `index.md` for `pages`, which may arrive in any order.
pub fn render(pages: &[Page]) -> (r: String)
    ensures
        r@ == render_spec(pages_view(pages@)),
{
    let mut out = String::from_str(
        "# Baton index\n\nEvery page, grouped by project and then by type. Derived from the tree — edit the tree, not this file.\n",
    );
    if pages.len() == 0 {
        out.append(
            "\n_No pages yet. Run `/baton` at the end of a working session and the agent will propose the first ones._\n",
        );
        return out;
    }
    let ghost pv = pages_view(pages@);
    let order = listing_positions(pages);
    let ghost s = listing_order(pv);
    let mut i: usize = 0;
    while i < order.len()
        invariant
            i <= order@.len(),
            pv == pages_view(pages@),
            forall|j: int| 0 <= j < order@.len() ==> #[trigger] order@[j] < pages@.len(),
            picked(pv, order@) == s,
            out@ == intro() + listing_upto(s, i as int),
        decreases order.len() - i,
    {
        let ghost o = out@;
        push_heads(&mut out, pages, &order, i);
        let p = &pages[order[i]];
        assert(s[i as int] == p@);
        push_entry(&mut out, p);
        assert(out@ =~= o + group_head(s, i as int) + type_head(s, i as int) + entry_line(s[i as int]));
        i += 1;
    }
    out
}


proof fn lemma_listing_keeps(s: Seq<PageView>, j: int)
    requires
        0 <= j < s.len(),
    ensures
        listing_order(s).contains(s[j]),
    decreases s.len(),
{
    lemma_least_from(s, 1, 0);
    let m = least_from(s, 1, 0);
    let o = listing_order(s);
    assert(o == seq![s[m]] + listing_order(s.remove(m)));
    if j == m {
        assert(o[0] == s[j]);
    } else {
        let jj = if j < m {
            j
        } else {
            j - 1
        };
        assert(s.remove(m)[jj] == s[j]);
        lemma_listing_keeps(s.remove(m), jj);
        let t = choose|t: int| 0 <= t < listing_order(s.remove(m)).len() && listing_order(s.remove(m))[t] == s[j];
        assert(o[t + 1] == s[j]);
    }
}

proof fn lemma_listing_has_entry(s: Seq<PageView>, n: int, i: int)
    requires
        0 <= i < n <= s.len(),
    ensures
        contains_seq(listing_upto(s, n), entry_line(s[i])),
    decreases n,
{
    let before = listing_upto(s, n - 1) + group_head(s, n - 1) + type_head(s, n - 1);
    assert(listing_upto(s, n) == before + entry_line(s[n - 1]));
    if i == n - 1 {
        lemma_contains_self(entry_line(s[i]));
        lemma_contains_right(before, entry_line(s[i]), entry_line(s[i]));
    } else {
        lemma_listing_has_entry(s, n - 1, i);
        lemma_contains_left(listing_upto(s, n - 1), group_head(s, n - 1) + type_head(s, n - 1), entry_line(s[i]));
        assert(listing_upto(s, n - 1) + (group_head(s, n - 1) + type_head(s, n - 1)) =~= before);
        lemma_contains_left(before, entry_line(s[n - 1]), entry_line(s[i]));
    }
}

/// What follows the link target in an index line.
pub open spec fn entry_rest(p: PageView) -> Seq<char> {
    label_of(p) + "]]"@ + (if blurb_spec(p).len() == 0 {
        seq![]
    } else {
        " — "@ + blurb_spec(p)
    }) + note_of(p.fm.status) + "\n"@
}

proof fn lemma_entry_shape(p: PageView)
    ensures
        entry_line(p) == "- "@ + ("[["@ + p.id + "|"@) + entry_rest(p),
{
    reveal_strlit("- [[");
    reveal_strlit("- ");
    reveal_strlit("[[");
    assert(entry_line(p) =~= "- "@ + ("[["@ + p.id + "|"@) + entry_rest(p));
}

proof fn lemma_listing_shows_link(pages: Seq<PageView>, j: int)
    requires
        0 <= j < pages.len(),
    ensures
        contains_seq(
            listing_upto(listing_order(pages), listing_order(pages).len() as int),
            "[["@ + pages[j].id + "|"@,
        ),
{
    let s = listing_order(pages);
    lemma_listing_keeps(pages, j);
    let i = choose|i: int| 0 <= i < s.len() && s[i] == pages[j];
    lemma_listing_has_entry(s, s.len() as int, i);
    lemma_entry_shape(pages[j]);
    lemma_contains_part(
        listing_upto(s, s.len() as int),
        "- "@,
        "[["@ + pages[j].id + "|"@,
        entry_rest(pages[j]),
    );
}

/// Every page appears in the index, as a link whose target is its id: the
/// agent reads the index to decide whether a subject already has a page,
/// and a page left out invites a duplicate. Its line is
/// `- [[id|label]] — blurb note`: the label its title (or a name made from
/// the id), the blurb left out with its dash when there is none, and the
/// note saying when the page no longer holds.
pub proof fn law_every_page_appears(pages: Seq<PageView>, j: int)
    requires
        0 <= j < pages.len(),
    ensures
        contains_seq(render_spec(pages), "[["@ + pages[j].id + "|"@),
        contains_seq(render_spec(pages), entry_line(pages[j])),
{
    let s = listing_order(pages);
    lemma_listing_shows_link(pages, j);
    lemma_contains_right(intro(), listing_upto(s, s.len() as int), "[["@ + pages[j].id + "|"@);
    lemma_listing_keeps(pages, j);
    let i = choose|i: int| 0 <= i < s.len() && s[i] == pages[j];
    lemma_listing_has_entry(s, s.len() as int, i);
    lemma_contains_right(intro(), listing_upto(s, s.len() as int), entry_line(pages[j]));
}


/// Two pages the index cannot tell apart by its ordering keys.
pub open spec fn same_place(x: PageView, y: PageView) -> bool {
    group_key(x) == group_key(y) && rank_of(x.fm.page_type) == rank_of(y.fm.page_type) && x.id == y.id
}

/// No two pages share a group, a type rank and an id.
pub open spec fn distinct_places(s: Seq<PageView>) -> bool {
    forall|i: int, j: int| 0 <= i < s.len() && 0 <= j < s.len() && i != j ==> !same_place(#[trigger] s[i], #[trigger] s[j])
}

proof fn lemma_group_before(a: Option<Seq<char>>, b: Option<Seq<char>>, c: Option<Seq<char>>)
    ensures
        !group_before(a, a),
        group_before(a, b) ==> !group_before(b, a),
        group_before(a, b) && group_before(b, c) ==> group_before(a, c),
        a != b ==> group_before(a, b) || group_before(b, a),
{
    match (a, b, c) {
        (Some(x), Some(y), Some(z)) => {
            lemma_seq_lt_irreflexive(x);
            lemma_seq_lt_asymmetric(x, y);
            if seq_lt(x, y) && seq_lt(y, z) {
                lemma_seq_lt_transitive(x, y, z);
            }
            if x != y {
                lemma_seq_lt_total(x, y);
            }
        },
        (Some(x), Some(y), None) => {
            lemma_seq_lt_irreflexive(x);
            lemma_seq_lt_asymmetric(x, y);
            if x != y {
                lemma_seq_lt_total(x, y);
            }
        },
        (Some(x), _, _) => {
            lemma_seq_lt_irreflexive(x);
        },
        _ => {},
    }
}

proof fn lemma_before_irreflexive(x: PageView)
    ensures
        !listed_before(x, x),
{
    lemma_group_before(group_key(x), group_key(x), group_key(x));
    lemma_seq_lt_irreflexive(x.id);
}

proof fn lemma_before_asymmetric(x: PageView, y: PageView)
    ensures
        listed_before(x, y) ==> !listed_before(y, x),
{
    lemma_group_before(group_key(x), group_key(y), group_key(y));
    lemma_group_before(group_key(x), group_key(x), group_key(x));
    lemma_seq_lt_asymmetric(x.id, y.id);
}

proof fn lemma_before_transitive(x: PageView, y: PageView, z: PageView)
    requires
        listed_before(x, y),
        listed_before(y, z),
    ensures
        listed_before(x, z),
{
    let (a, b, c) = (group_key(x), group_key(y), group_key(z));
    lemma_group_before(a, b, c);
    if group_before(a, b) && group_before(b, c) {
    } else if group_before(a, b) {
    } else if group_before(b, c) {
    } else if rank_of(x.fm.page_type) < rank_of(y.fm.page_type) || rank_of(y.fm.page_type) < rank_of(
        z.fm.page_type,
    ) {
    } else {
        lemma_seq_lt_transitive(x.id, y.id, z.id);
    }
}

proof fn lemma_before_total(x: PageView, y: PageView)
    requires
        !same_place(x, y),
    ensures
        listed_before(x, y) || listed_before(y, x),
{
    if group_key(x) != group_key(y) {
        lemma_group_before(group_key(x), group_key(y), group_key(y));
    } else if rank_of(x.fm.page_type) == rank_of(y.fm.page_type) {
        lemma_seq_lt_total(x.id, y.id);
    }
}

/// `least_from` picks a page nothing else is listed before.
proof fn lemma_least_is_least(s: Seq<PageView>, i: int, best: int)
    requires
        0 <= best < s.len(),
        1 <= i,
        best < i,
        forall|k: int| 0 <= k < i && k < s.len() ==> !listed_before(#[trigger] s[k], s[best]),
    ensures
        forall|k: int| 0 <= k < s.len() ==> !listed_before(#[trigger] s[k], s[least_from(s, i, best)]),
    decreases s.len() - i,
{
    if i < s.len() {
        if listed_before(s[i], s[best]) {
            assert forall|k: int| 0 <= k < i + 1 && k < s.len() implies !listed_before(#[trigger] s[k], s[i]) by {
                if k < i && listed_before(s[k], s[i]) {
                    lemma_before_transitive(s[k], s[i], s[best]);
                }
                if k == i {
                    lemma_before_irreflexive(s[i]);
                }
            }
            lemma_least_is_least(s, i + 1, i);
        } else {
            lemma_least_is_least(s, i + 1, best);
        }
    }
}

proof fn lemma_listing_members(s: Seq<PageView>)
    ensures
        listing_order(s).len() == s.len(),
        forall|x: PageView| #[trigger] listing_order(s).contains(x) ==> s.contains(x),
    decreases s.len(),
{
    if s.len() > 0 {
        lemma_least_from(s, 1, 0);
        let m = least_from(s, 1, 0);
        let r = s.remove(m);
        lemma_listing_members(r);
        let o = listing_order(s);
        assert(o == seq![s[m]] + listing_order(r));
        assert forall|x: PageView| #[trigger] o.contains(x) implies s.contains(x) by {
            let t = choose|t: int| 0 <= t < o.len() && o[t] == x;
            if t == 0 {
                assert(s[m] == x);
            } else {
                assert(listing_order(r)[t - 1] == x);
                assert(listing_order(r).contains(x));
                let u = choose|u: int| 0 <= u < r.len() && r[u] == x;
                if u < m {
                    assert(s[u] == x);
                } else {
                    assert(s[u + 1] == x);
                }
            }
        }
    }
}

proof fn lemma_remove_keeps_distinct(s: Seq<PageView>, m: int)
    requires
        distinct_places(s),
        0 <= m < s.len(),
    ensures
        distinct_places(s.remove(m)),
{
    let r = s.remove(m);
    assert forall|i: int, j: int| 0 <= i < r.len() && 0 <= j < r.len() && i != j implies !same_place(#[trigger] r[i], #[trigger] r[j]) by {
        let ii = if i < m {
            i
        } else {
            i + 1
        };
        let jj = if j < m {
            j
        } else {
            j + 1
        };
        assert(r[i] == s[ii] && r[j] == s[jj]);
    }
}

/// Listed in increasing order, each strictly before the next.
pub open spec fn strictly_listed(o: Seq<PageView>) -> bool {
    forall|i: int, j: int| 0 <= i < j < o.len() ==> listed_before(#[trigger] o[i], #[trigger] o[j])
}

proof fn lemma_listing_sorted(s: Seq<PageView>)
    requires
        distinct_places(s),
    ensures
        strictly_listed(listing_order(s)),
    decreases s.len(),
{
    if s.len() > 0 {
        lemma_least_from(s, 1, 0);
        let m = least_from(s, 1, 0);
        assert forall|k: int| 0 <= k < 1 && k < s.len() implies !listed_before(#[trigger] s[k], s[0]) by {
            lemma_before_irreflexive(s[0]);
        }
        lemma_least_is_least(s, 1, 0);
        let r = s.remove(m);
        lemma_remove_keeps_distinct(s, m);
        lemma_listing_sorted(r);
        lemma_listing_members(r);
        let o = listing_order(s);
        let or = listing_order(r);
        assert(o == seq![s[m]] + or);
        assert forall|i: int, j: int| 0 <= i < j < o.len() implies listed_before(#[trigger] o[i], #[trigger] o[j]) by {
            if i == 0 {
                assert(o[j] == or[j - 1]);
                assert(or.contains(or[j - 1]));
                let u = choose|u: int| 0 <= u < r.len() && r[u] == or[j - 1];
                let uu = if u < m {
                    u
                } else {
                    u + 1
                };
                assert(s[uu] == o[j]);
                assert(!listed_before(s[uu], s[m]));
                assert(!same_place(s[uu], s[m]));
                lemma_before_total(s[uu], s[m]);
            } else {
                assert(o[i] == or[i - 1] && o[j] == or[j - 1]);
            }
        }
    }
}

/// No page is listed after one it comes before.
pub open spec fn listed_in_order(o: Seq<PageView>) -> bool {
    forall|i: int, j: int| 0 <= i < j < o.len() ==> !listed_before(#[trigger] o[j], #[trigger] o[i])
}

proof fn lemma_listing_in_order(s: Seq<PageView>)
    ensures
        listed_in_order(listing_order(s)),
    decreases s.len(),
{
    if s.len() > 0 {
        lemma_least_from(s, 1, 0);
        let m = least_from(s, 1, 0);
        assert forall|k: int| 0 <= k < 1 && k < s.len() implies !listed_before(#[trigger] s[k], s[0]) by {
            lemma_before_irreflexive(s[0]);
        }
        lemma_least_is_least(s, 1, 0);
        let r = s.remove(m);
        lemma_listing_in_order(r);
        lemma_listing_members(r);
        let o = listing_order(s);
        let or = listing_order(r);
        assert(o == seq![s[m]] + or);
        assert forall|i: int, j: int| 0 <= i < j < o.len() implies !listed_before(#[trigger] o[j], #[trigger] o[i]) by {
            if i == 0 {
                assert(o[j] == or[j - 1]);
                assert(or.contains(or[j - 1]));
                let u = choose|u: int| 0 <= u < r.len() && r[u] == or[j - 1];
                let uu = if u < m {
                    u
                } else {
                    u + 1
                };
                assert(s[uu] == o[j]);
            } else {
                assert(o[i] == or[i - 1] && o[j] == or[j - 1]);
            }
        }
    }
}

/// The index lists projects in order of their names and Concepts after all
/// of them, whatever a project is called: no page of a project follows a
/// page of no project, and two projects' pages come in name order.
pub proof fn law_concepts_are_listed_last(pages: Seq<PageView>, i: int, j: int)
    requires
        0 <= i < j < listing_order(pages).len(),
    ensures
        listing_order(pages)[i].fm.project is None ==> listing_order(pages)[j].fm.project is None,
        listing_order(pages)[i].fm.project matches Some(x) ==> listing_order(pages)[j].fm.project
            matches Some(y) ==> x == y || seq_lt(x, y),
{
    lemma_listing_in_order(pages);
    let o = listing_order(pages);
    assert(!listed_before(o[j], o[i]));
    lemma_group_before(group_key(o[i]), group_key(o[j]), group_key(o[j]));
}

proof fn lemma_listed_unique(q1: Seq<PageView>, q2: Seq<PageView>)
    requires
        strictly_listed(q1),
        strictly_listed(q2),
        forall|x: PageView|
            #![trigger q1.contains(x)]
            #![trigger q2.contains(x)]
            q1.contains(x) <==> q2.contains(x),
    ensures
        q1 == q2,
    decreases q1.len(),
{
    if q1.len() == 0 {
        if q2.len() > 0 {
            assert(q2.contains(q2[0]));
        }
        assert(q1 =~= q2);
    } else {
        assert(q1.contains(q1[0]));
        assert(q2.len() > 0);
        assert(q2.contains(q2[0]));
        let a = q1[0];
        let b = q2[0];
        if a != b {
            let i = choose|i: int| 0 <= i < q2.len() && q2[i] == a;
            let j = choose|j: int| 0 <= j < q1.len() && q1[j] == b;
            assert(i > 0);
            assert(j > 0);
            assert(listed_before(b, a));
            assert(listed_before(a, b));
            lemma_before_asymmetric(a, b);
        }
        let r1 = q1.drop_first();
        let r2 = q2.drop_first();
        assert forall|x: PageView| #[trigger] r1.contains(x) <==> r2.contains(x) by {
            if r1.contains(x) {
                let i = choose|i: int| 0 <= i < r1.len() && r1[i] == x;
                assert(q1[i + 1] == x);
                assert(listed_before(a, x));
                lemma_before_irreflexive(x);
                assert(q2.contains(x));
                let j = choose|j: int| 0 <= j < q2.len() && q2[j] == x;
                assert(j != 0);
                assert(r2[j - 1] == x);
            }
            if r2.contains(x) {
                let j = choose|j: int| 0 <= j < r2.len() && r2[j] == x;
                assert(q2[j + 1] == x);
                assert(listed_before(b, x));
                lemma_before_irreflexive(x);
                assert(q1.contains(x));
                let i = choose|i: int| 0 <= i < q1.len() && q1[i] == x;
                assert(i != 0);
                assert(r1[i - 1] == x);
            }
        }
        assert(strictly_listed(r1)) by {
            assert forall|i: int, j: int| 0 <= i < j < r1.len() implies listed_before(#[trigger] r1[i], #[trigger] r1[j]) by {
                assert(r1[i] == q1[i + 1] && r1[j] == q1[j + 1]);
            }
        }
        assert(strictly_listed(r2)) by {
            assert forall|i: int, j: int| 0 <= i < j < r2.len() implies listed_before(#[trigger] r2[i], #[trigger] r2[j]) by {
                assert(r2[i] == q2[i + 1] && r2[j] == q2[j + 1]);
            }
        }
        lemma_listed_unique(r1, r2);
        assert(q1 =~= seq![a] + r1);
        assert(q2 =~= seq![b] + r2);
    }
}

/// The index does not depend on the order the pages arrive in: two page
/// lists with the same pages render the same text, so the file does not
/// reorder itself from one save to the next. This holds where no two pages
/// share a group, a type and an id; pages that do are listed in the order
/// they arrive.
pub proof fn law_order_of_arrival_does_not_matter(a: Seq<PageView>, b: Seq<PageView>)
    requires
        distinct_places(a),
        distinct_places(b),
        forall|x: PageView|
            #![trigger a.contains(x)]
            #![trigger b.contains(x)]
            a.contains(x) <==> b.contains(x),
    ensures
        render_spec(a) == render_spec(b),
{
    let oa = listing_order(a);
    let ob = listing_order(b);
    lemma_listing_sorted(a);
    lemma_listing_sorted(b);
    lemma_listing_members(a);
    lemma_listing_members(b);
    assert forall|x: PageView| #![trigger oa.contains(x)] #![trigger ob.contains(x)] oa.contains(x) <==> ob.contains(x) by {
        if oa.contains(x) {
            assert(a.contains(x));
            let j = choose|j: int| 0 <= j < b.len() && b[j] == x;
            lemma_listing_keeps(b, j);
        }
        if ob.contains(x) {
            assert(b.contains(x));
            let j = choose|j: int| 0 <= j < a.len() && a[j] == x;
            lemma_listing_keeps(a, j);
        }
    }
    lemma_listed_unique(oa, ob);
    if a.len() == 0 && b.len() > 0 {
        assert(b.contains(b[0]));
    }
    if b.len() == 0 && a.len() > 0 {
        assert(a.contains(a[0]));
    }
}

/// Every page that no longer holds says so at the end of its index line:
/// its line ends with ` — ` and the name of its status as the frontmatter
/// spells it (`superseded`, `abandoned`, `stale`), and only a current page's
/// line ends bare. The index contains that line for every page.
pub proof fn law_stale_pages_are_marked(pages: Seq<PageView>, j: int)
    requires
        0 <= j < pages.len(),
    ensures
        contains_seq(render_spec(pages), entry_line(pages[j])),
        ({
            let p = pages[j];
            let line = entry_line(p);
            let mark = if p.fm.status == Status::Current {
                Seq::<char>::empty()
            } else {
                " — "@ + status_name(p.fm.status)
            };
            &&& status_named(status_name(p.fm.status)) == Some(p.fm.status)
            &&& line.len() >= mark.len() + 1
            &&& line.subrange(line.len() - mark.len() - 1, line.len() as int) == mark + "\n"@
        }),
{
    law_every_page_appears(pages, j);
    let p = pages[j];
    let mark = if p.fm.status == Status::Current {
        Seq::<char>::empty()
    } else {
        " — "@ + status_name(p.fm.status)
    };
    reveal_strlit(" — superseded");
    reveal_strlit(" — abandoned");
    reveal_strlit(" — stale");
    reveal_strlit(" — ");
    reveal_strlit("superseded");
    reveal_strlit("abandoned");
    reveal_strlit("stale");
    reveal_strlit("current");
    reveal_strlit("");
    reveal_strlit("\n");
    assert(note_of(p.fm.status) =~= mark);
    let text = blurb_spec(p);
    let pre = "- [["@ + p.id + "|"@ + label_of(p) + "]]"@ + (if text.len() == 0 {
        seq![]
    } else {
        " — "@ + text
    });
    let line = entry_line(p);
    assert(line == pre + note_of(p.fm.status) + "\n"@);
    let tail = mark + "\n"@;
    assert(line =~= pre + tail);
    assert(tail.len() == mark.len() + 1);
    assert(line.subrange(pre.len() as int, line.len() as int) =~= tail);
}

} // verus!
