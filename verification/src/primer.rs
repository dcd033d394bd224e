//! Composing several pages into one brief for a model.
//!
//! Pure text composition: no model call and no database. The order below is
//! the point of the module. A reader that runs out of budget must still have
//! the goal, the next step and the decisions already taken, because those are
//! what stop a fresh session re-litigating settled work.

use vstd::prelude::*;
use vstd::utf8::encode_utf8;
use crate::date::{date_after, date_display, Date};
use crate::frontmatter::{status_name, PageType, Status};
use crate::text::{
    chars_of, find_char_from, is_ws_char, lemma_next_char, lemma_trim_end_prefix, next_char,
    push_span, slice_vec,
    string_of, trim, trim_end, trim_start, trim_span, is_ws,
};
use crate::lint::{listed, message_spec, FindingView, Report};
use crate::strings::{
    contains_seq, lemma_contains_left, lemma_contains_right, lemma_contains_self,
    concat_map, decimal, decimal_string, lemma_concat_map_step, lemma_sorted_unique, push_decimal,
    disjoint_chars, lemma_decimal_digits, lemma_replace_copies, lemma_replace_leaves_none,
    lemma_replace_reaches, replace_all, replace_exec, replace_from, sort_distinct,
    starts_at,
    sorted_members, strs,
    strictly_sorted,
};
use crate::wiki::{line_at, Page, PageView};

verus! {

/// How many bytes `s` takes in UTF-8, as `str::len` counts it.
pub open spec fn utf8_len(s: Seq<char>) -> nat {
    encode_utf8(s).len() as usize as nat
}

/// About four characters per token for English prose: the byte length over
/// four, rounded up.
pub open spec fn tokens_for(s: Seq<char>) -> nat {
    (utf8_len(s) + 3) / 4
}

pub proof fn lemma_tokens_bound(s: Seq<char>)
    ensures
        tokens_for(s) <= usize::MAX / 4 + 1,
{
}

/// An estimate of the tokens in `text`, not a measurement: close enough to
/// keep a budget honest.
pub fn estimate_tokens(text: &str) -> (r: usize)
    ensures
        r == tokens_for(text@),
{
    let n = text.len();
    assert(n == utf8_len(text@));
    let q = n / 4;
    if n % 4 == 0 {
        q
    } else {
        q + 1
    }
}

/// The brief for one project.
#[derive(Debug, Clone)]
pub struct Primer {
    pub project: String,
    pub text: String,
    /// Estimated tokens, not measured.
    pub tokens: usize,
    pub pages_included: usize,
    /// Pages left out because the budget ran out. Named in the text as well,
    /// because a brief that silently truncates reads as if it were complete.
    pub pages_dropped: usize,
}

pub struct PrimerView {
    pub project: Seq<char>,
    pub text: Seq<char>,
    pub tokens: nat,
    pub pages_included: nat,
    pub pages_dropped: nat,
}

impl View for Primer {
    type V = PrimerView;

    open spec fn view(&self) -> PrimerView {
        PrimerView {
            project: self.project@,
            text: self.text@,
            tokens: self.tokens as nat,
            pages_included: self.pages_included as nat,
            pages_dropped: self.pages_dropped as nat,
        }
    }
}

/// The project of the most recently updated page among `pages[..n]` that
/// has one; of several updated the same day, the last.
pub open spec fn recent_upto(pages: Seq<PageView>, n: int) -> Option<(Seq<char>, (i32, u32, u32))>
    decreases n,
{
    if n <= 0 {
        None
    } else {
        let before = recent_upto(pages, n - 1);
        let p = pages[n - 1];
        match p.fm.project {
            None => before,
            Some(x) => match before {
                Some((y, when)) => if date_after(when, p.fm.updated) {
                    before
                } else {
                    Some((x, p.fm.updated))
                },
                None => Some((x, p.fm.updated)),
            },
        }
    }
}

pub open spec fn most_recent_spec(pages: Seq<PageView>) -> Option<Seq<char>> {
    match recent_upto(pages, pages.len() as int) {
        Some((x, _)) => Some(x),
        None => None,
    }
}

/// The project a primer should default to: the one whose page changed last.
pub fn most_recent_project(pages: &[Page]) -> (r: Option<String>)
    ensures
        r.deep_view() == most_recent_spec(crate::lint::pages_view(pages@)),
{
    let ghost pv = crate::lint::pages_view(pages@);
    let mut best: Option<(String, Date)> = None;
    let mut k: usize = 0;
    while k < pages.len()
        invariant
            k <= pages@.len(),
            pv == crate::lint::pages_view(pages@),
            match best {
                Some((x, d)) => recent_upto(pv, k as int) == Some((x@, d.ymd())),
                None => recent_upto(pv, k as int) is None,
            },
        decreases pages.len() - k,
    {
        let p = &pages[k];
        assert(pv[k as int] == p@);
        match &p.frontmatter.project {
            None => {},
            Some(x) => {
                let replace = match &best {
                    Some((_, when)) => !when.is_after(&p.frontmatter.updated),
                    None => true,
                };
                if replace {
                    best = Some((x.clone(), p.frontmatter.updated));
                }
            },
        }
        k += 1;
    }
    match best {
        Some((x, _)) => Some(x),
        None => None,
    }
}

pub open spec fn refs_view(s: Seq<&Page>) -> Seq<PageView> {
    s.map_values(|p: &Page| p@)
}

/// The line starting at `i` is blank.
pub open spec fn blank_line(s: Seq<char>, i: int) -> bool {
    trim(line_at(s, i)).len() == 0
}

/// The line starting at `i` is a `# Title`.
pub open spec fn title_line(s: Seq<char>, i: int) -> bool {
    let l = line_at(s, i);
    l.len() >= 2 && l[0] == '#' && l[1] == ' '
}

/// Where the lines from `i` on stop matching `blank` (or `title`): the start
/// of the first line that does not, or `s.len()`.
pub open spec fn skip_lines(s: Seq<char>, i: int, title: bool) -> int
    decreases s.len() - i,
{
    if i < 0 || i >= s.len() {
        s.len() as int
    } else if (if title {
        title_line(s, i)
    } else {
        blank_line(s, i)
    }) {
        let e = next_char(s, i, '\n');
        proof {
            lemma_next_char(s, i, '\n');
        }
        if e >= s.len() {
            s.len() as int
        } else {
            skip_lines(s, e + 1, title)
        }
    } else {
        i
    }
}

/// The lines from `i` on, as `str::lines` yields them, joined with `\n`.
pub open spec fn lines_from(s: Seq<char>, i: int) -> Seq<char>
    decreases s.len() - i,
{
    if i < 0 || i >= s.len() {
        seq![]
    } else {
        let e = next_char(s, i, '\n');
        proof {
            lemma_next_char(s, i, '\n');
        }
        if e + 1 >= s.len() {
            line_at(s, i)
        } else {
            line_at(s, i) + seq!['\n'] + lines_from(s, e + 1)
        }
    }
}

/// A page body with its own `# Title` line removed: the brief re-renders the
/// title one level down, so every page sits at the same depth.
pub open spec fn body_without_title_spec(body: Seq<char>) -> Seq<char> {
    trim(lines_from(body, skip_lines(body, skip_lines(body, 0, false), true)))
}

fn line_vec(s: &Vec<char>, i: usize) -> (r: (Vec<char>, usize))
    requires
        i <= s@.len(),
    ensures
        r.0@ == line_at(s@, i as int),
        r.1 == next_char(s@, i as int, '\n'),
        i <= r.1 <= s@.len(),
{
    let e = find_char_from(s, i, '\n');
    let line = if e < s.len() && e > i && s[e - 1] == '\r' {
        slice_vec(s, i, e - 1)
    } else {
        slice_vec(s, i, e)
    };
    assert(line@ =~= line_at(s@, i as int));
    (line, e)
}

fn skip_lines_exec(s: &Vec<char>, i: usize, title: bool) -> (r: usize)
    requires
        i <= s@.len(),
    ensures
        r == skip_lines(s@, i as int, title),
        r <= s@.len(),
{
    let mut k = i;
    while k < s.len()
        invariant
            i <= k <= s@.len(),
            skip_lines(s@, k as int, title) == skip_lines(s@, i as int, title),
        decreases s.len() - k,
    {
        let (line, e) = line_vec(s, k);
        let hit = if title {
            line.len() >= 2 && line[0] == '#' && line[1] == ' '
        } else {
            let (a, b) = trim_span(&line, 0, line.len());
            assert(line@.subrange(0, line@.len() as int) =~= line@);
            a == b
        };
        if !hit {
            return k;
        }
        if e >= s.len() {
            return s.len();
        }
        k = e + 1;
    }
    s.len()
}

/// A page body with its own `# Title` line removed.
pub fn body_without_title(page: &Page) -> (r: String)
    ensures
        r@ == body_without_title_spec(page@.body),
{
    let s = chars_of(page.body.as_str());
    let start = skip_lines_exec(&s, skip_lines_exec(&s, 0, false), true);
    let mut out: Vec<char> = Vec::new();
    let mut i = start;
    while i < s.len()
        invariant
            start <= i <= s@.len(),
            out@ + lines_from(s@, i as int) == lines_from(s@, start as int),
        decreases s.len() - i,
    {
        let (line, e) = line_vec(&s, i);
        let ghost o = out@;
        let mut k: usize = 0;
        while k < line.len()
            invariant
                k <= line@.len(),
                out@ == o + line@.subrange(0, k as int),
            decreases line.len() - k,
        {
            out.push(line[k]);
            assert(line@.subrange(0, k + 1) =~= line@.subrange(0, k as int).push(line@[k as int]));
            k += 1;
        }
        assert(line@.subrange(0, line@.len() as int) =~= line@);
        if e >= s.len() || e + 1 >= s.len() {
            assert(lines_from(s@, i as int) == line@);
            i = s.len();
        } else {
            out.push('\n');
            assert(out@ + lines_from(s@, e + 1) =~= o + lines_from(s@, i as int));
            i = e + 1;
        }
    }
    assert(out@ + Seq::<char>::empty() =~= out@);
    let (a, b) = trim_span(&out, 0, out.len());
    assert(out@.subrange(0, out@.len() as int) =~= out@);
    string_of(&out, a, b)
}


/// One candidate chunk of the brief, in priority order.
pub struct Block {
    text: String,
    /// Ids of the pages this block carries.
    ids: Vec<String>,
    /// Included whether or not the budget allows.
    required: bool,
}

pub struct BlockView {
    pub text: Seq<char>,
    pub ids: Seq<Seq<char>>,
    pub required: bool,
}

impl View for Block {
    type V = BlockView;

    closed spec fn view(&self) -> BlockView {
        BlockView { text: self.text@, ids: self.ids.deep_view(), required: self.required }
    }
}

pub open spec fn blocks_view(bs: Seq<Block>) -> Seq<BlockView> {
    bs.map_values(|b: Block| b@)
}

/// The opening of the brief. The page count is a placeholder until the
/// budget has decided what the brief carries.
pub open spec fn header_spec(project: Seq<char>, today: (i32, u32, u32)) -> Seq<char> {
    "# "@ + project + ": project context\n\nAssembled by Baton on "@ + date_display(
        today.0,
        today.1,
        today.2,
    )
        + " from "@ + "{{PAGE_COUNT}}"@ + " wiki pages."@
        + "\n\nEvery entry comes from a page written by the agent that did the work. A page\nmarked superseded or abandoned is kept deliberately: it is history, and the\nreason something is no longer done that way. Each line carries the date its\npage last changed, so a stale claim can be spotted rather than trusted.\n"@
}

pub open spec fn status_tag(st: Status) -> Seq<char> {
    if st == Status::Current {
        seq![]
    } else {
        " ["@ + status_name(st) + "]"@
    }
}

pub open spec fn shown_title(p: PageView) -> Seq<char> {
    if p.title.len() == 0 {
        p.id
    } else {
        p.title
    }
}

/// The block for the `i`th page of a group: the whole page, under the
/// group's heading when it is the first.
pub open spec fn page_block(heading: Seq<char>, note: Seq<char>, i: int, p: PageView) -> BlockView {
    let lead = if i == 0 {
        "## "@ + heading + "\n\n"@ + note + "\n\n"@
    } else {
        seq![]
    };
    BlockView {
        text: lead + "### "@ + shown_title(p) + status_tag(p.fm.status) + "\n_updated "@
            + date_display(p.fm.updated.0, p.fm.updated.1, p.fm.updated.2) + " · "@ + p.id
            + "_\n\n"@ + body_without_title_spec(p.body) + "\n"@,
        ids: seq![p.id],
        required: false,
    }
}

/// One block per page of the group, each carrying the whole page.
pub open spec fn full_pages_spec(heading: Seq<char>, note: Seq<char>, group: Seq<PageView>) -> Seq<
    BlockView,
> {
    Seq::new(group.len(), |i: int| page_block(heading, note, i, group[i]))
}

fn full_pages(heading: &str, note: &str, group: &Vec<&Page>, out: &mut Vec<Block>)
    ensures
        blocks_view(final(out)@) == blocks_view(old(out)@) + full_pages_spec(
            heading@,
            note@,
            refs_view(group@),
        ),
{
    let ghost gv = refs_view(group@);
    let ghost o = blocks_view(out@);
    let mut i: usize = 0;
    while i < group.len()
        invariant
            i <= group@.len(),
            gv == refs_view(group@),
            blocks_view(out@) == o + full_pages_spec(heading@, note@, gv).take(i as int),
        decreases group.len() - i,
    {
        let page = group[i];
        assert(gv[i as int] == page@);
        let mut text = String::new();
        if i == 0 {
            text.append("## ");
            text.append(heading);
            text.append("\n\n");
            text.append(note);
            text.append("\n\n");
        }
        text.append("### ");
        if page.title.as_str().unicode_len() == 0 {
            text.append(page.id.as_str());
        } else {
            text.append(page.title.as_str());
        }
        if page.frontmatter.status != Status::Current {
            text.append(" [");
            text.append(page.frontmatter.status.as_str());
            text.append("]");
        }
        text.append("\n_updated ");
        let when = page.frontmatter.updated.to_string();
        text.append(when.as_str());
        text.append(" · ");
        text.append(page.id.as_str());
        text.append("_\n\n");
        let rest = body_without_title(page);
        text.append(rest.as_str());
        text.append("\n");
        let mut ids: Vec<String> = Vec::new();
        ids.push(page.id.clone());
        let ghost pb = page_block(heading@, note@, i as int, gv[i as int]);
        assert(text@ =~= pb.text);
        let b = Block { text, ids, required: false };
        assert(b@.ids =~= seq![page@.id]);
        assert(b@ == pb);
        let ghost before = blocks_view(out@);
        out.push(b);
        assert(blocks_view(out@) =~= before.push(b@));
        assert(full_pages_spec(heading@, note@, gv).take(i + 1) =~= full_pages_spec(
            heading@,
            note@,
            gv,
        ).take(i as int).push(b@));
        i += 1;
    }
    assert(full_pages_spec(heading@, note@, gv).take(group@.len() as int) =~= full_pages_spec(
        heading@,
        note@,
        gv,
    ));
}

pub proof fn lemma_filter_take<A>(s: Seq<A>, k: int, pred: spec_fn(A) -> bool)
    requires
        0 <= k < s.len(),
    ensures
        s.take(k + 1).filter(pred) == if pred(s[k]) {
            s.take(k).filter(pred).push(s[k])
        } else {
            s.take(k).filter(pred)
        },
{
    reveal(Seq::filter);
    assert(s.take(k + 1).drop_last() =~= s.take(k));
}

pub open spec fn of_project(pages: Seq<PageView>, project: Seq<char>) -> Seq<PageView> {
    pages.filter(|p: PageView| p.fm.project == Some(project))
}

pub open spec fn concepts_of(pages: Seq<PageView>) -> Seq<PageView> {
    pages.filter(|p: PageView| p.fm.project is None && p.fm.page_type == PageType::Gotcha)
}

pub open spec fn of_type_spec(pages: Seq<PageView>, t: PageType) -> Seq<PageView> {
    pages.filter(|p: PageView| p.fm.page_type == t)
}

/// Pages of a type that are still true. A superseded decision belongs in the
/// history, not in the list of what currently holds.
pub open spec fn live_spec(pages: Seq<PageView>, t: PageType) -> Seq<PageView> {
    of_type_spec(pages, t).filter(|p: PageView| p.fm.status == Status::Current)
}

fn pages_of_project<'a>(pages: &'a [Page], project: &str) -> (r: Vec<&'a Page>)
    ensures
        refs_view(r@) == of_project(crate::lint::pages_view(pages@), project@),
{
    let ghost pv = crate::lint::pages_view(pages@);
    let ghost pred = |p: PageView| p.fm.project == Some(project@);
    let want = String::from_str(project);
    let mut out: Vec<&Page> = Vec::new();
    let mut k: usize = 0;
    assert(pv.take(0).filter(pred) =~= Seq::<PageView>::empty()) by {
        reveal(Seq::filter);
    }
    while k < pages.len()
        invariant
            k <= pages@.len(),
            pv == crate::lint::pages_view(pages@),
            pred == (|p: PageView| p.fm.project == Some(project@)),
            want@ == project@,
            refs_view(out@) == pv.take(k as int).filter(pred),
        decreases pages.len() - k,
    {
        proof {
            lemma_filter_take(pv, k as int, pred);
        }
        let p = &pages[k];
        assert(pv[k as int] == p@);
        let hit = match &p.frontmatter.project {
            Some(x) => *x == want,
            None => false,
        };
        let ghost before = refs_view(out@);
        if hit {
            out.push(p);
            assert(refs_view(out@) =~= before.push(p@));
        }
        k += 1;
    }
    assert(pv.take(pv.len() as int) =~= pv);
    out
}

fn concept_pages<'a>(pages: &'a [Page]) -> (r: Vec<&'a Page>)
    ensures
        refs_view(r@) == concepts_of(crate::lint::pages_view(pages@)),
{
    let ghost pv = crate::lint::pages_view(pages@);
    let ghost pred = |p: PageView| p.fm.project is None && p.fm.page_type == PageType::Gotcha;
    let mut out: Vec<&Page> = Vec::new();
    let mut k: usize = 0;
    assert(pv.take(0).filter(pred) =~= Seq::<PageView>::empty()) by {
        reveal(Seq::filter);
    }
    while k < pages.len()
        invariant
            k <= pages@.len(),
            pv == crate::lint::pages_view(pages@),
            pred == (|p: PageView| p.fm.project is None && p.fm.page_type == PageType::Gotcha),
            refs_view(out@) == pv.take(k as int).filter(pred),
        decreases pages.len() - k,
    {
        proof {
            lemma_filter_take(pv, k as int, pred);
        }
        let p = &pages[k];
        assert(pv[k as int] == p@);
        let ghost before = refs_view(out@);
        if p.frontmatter.project.is_none() && p.frontmatter.page_type == PageType::Gotcha {
            out.push(p);
            assert(refs_view(out@) =~= before.push(p@));
        }
        k += 1;
    }
    assert(pv.take(pv.len() as int) =~= pv);
    out
}

/// The pages of `group` of type `t`; only the current ones when `current`.
fn pick<'a>(group: &Vec<&'a Page>, t: PageType, current: bool) -> (r: Vec<&'a Page>)
    ensures
        refs_view(r@) == if current {
            live_spec(refs_view(group@), t)
        } else {
            of_type_spec(refs_view(group@), t)
        },
{
    let ghost gv = refs_view(group@);
    let ghost p1 = |p: PageView| p.fm.page_type == t;
    let ghost p2 = |p: PageView| p.fm.status == Status::Current;
    let mut typed: Vec<&Page> = Vec::new();
    let mut k: usize = 0;
    assert(gv.take(0).filter(p1) =~= Seq::<PageView>::empty()) by {
        reveal(Seq::filter);
    }
    while k < group.len()
        invariant
            k <= group@.len(),
            gv == refs_view(group@),
            p1 == (|p: PageView| p.fm.page_type == t),
            refs_view(typed@) == gv.take(k as int).filter(p1),
        decreases group.len() - k,
    {
        proof {
            lemma_filter_take(gv, k as int, p1);
        }
        let p = group[k];
        assert(gv[k as int] == p@);
        let ghost before = refs_view(typed@);
        if p.frontmatter.page_type == t {
            typed.push(p);
            assert(refs_view(typed@) =~= before.push(p@));
        }
        k += 1;
    }
    assert(gv.take(gv.len() as int) =~= gv);
    if !current {
        return typed;
    }
    let ghost tv = refs_view(typed@);
    let mut out: Vec<&Page> = Vec::new();
    let mut j: usize = 0;
    assert(tv.take(0).filter(p2) =~= Seq::<PageView>::empty()) by {
        reveal(Seq::filter);
    }
    while j < typed.len()
        invariant
            j <= typed@.len(),
            tv == refs_view(typed@),
            p2 == (|p: PageView| p.fm.status == Status::Current),
            refs_view(out@) == tv.take(j as int).filter(p2),
        decreases typed.len() - j,
    {
        proof {
            lemma_filter_take(tv, j as int, p2);
        }
        let p = typed[j];
        assert(tv[j as int] == p@);
        let ghost before = refs_view(out@);
        if p.frontmatter.status == Status::Current {
            out.push(p);
            assert(refs_view(out@) =~= before.push(p@));
        }
        j += 1;
    }
    assert(tv.take(tv.len() as int) =~= tv);
    out
}

/// Every candidate block of the brief, in priority order: the header, the
/// project page, then whole pages group by group.
pub open spec fn blocks_spec(pages: Seq<PageView>, project: Seq<char>, today: (i32, u32, u32)) -> Seq<
    BlockView,
> {
    let mine = of_project(pages, project);
    let overviews = of_type_spec(mine, PageType::Project);
    let head = seq![BlockView { text: header_spec(project, today), ids: seq![], required: true }];
    let overview = if overviews.len() > 0 {
        seq![
            BlockView {
                text: overviews[0].body + "\n"@,
                ids: seq![overviews[0].id],
                required: true,
            },
        ]
    } else {
        Seq::<BlockView>::empty()
    };
    head + overview + full_pages_spec(
        "Decisions already taken"@,
        "Do not re-propose what a Rejected section already ruled out."@,
        live_spec(mine, PageType::Decision),
    ) + full_pages_spec(
        "Open questions"@,
        "Undecided. Do not assume an answer."@,
        live_spec(mine, PageType::Open),
    ) + full_pages_spec(
        "Routes already tried"@,
        "These failed or were dropped. Do not retry one without a new reason."@,
        of_type_spec(mine, PageType::Attempt),
    ) + full_pages_spec(
        "Constraints learned the hard way"@,
        "Each one cost a debugging session already."@,
        concepts_of(pages),
    ) + full_pages_spec(
        "Components"@,
        "Read the constraints on each before touching those files."@,
        live_spec(mine, PageType::Component),
    )
}

fn header(project: &str, today: &Date) -> (r: String)
    ensures
        r@ == header_spec(project@, today.ymd()),
{
    let mut out = String::from_str("# ");
    out.append(project);
    out.append(": project context\n\nAssembled by Baton on ");
    let day = today.to_string();
    out.append(day.as_str());
    out.append(" from ");
    out.append("{{PAGE_COUNT}}");
    out.append(" wiki pages.");
    out.append(
        "\n\nEvery entry comes from a page written by the agent that did the work. A page\nmarked superseded or abandoned is kept deliberately: it is history, and the\nreason something is no longer done that way. Each line carries the date its\npage last changed, so a stale claim can be spotted rather than trusted.\n",
    );
    out
}

fn blocks(pages: &[Page], project: &str, today: &Date) -> (r: Vec<Block>)
    ensures
        blocks_view(r@) == blocks_spec(crate::lint::pages_view(pages@), project@, today.ymd()),
{
    let mine = pages_of_project(pages, project);
    let overviews = pick(&mine, PageType::Project, false);
    let mut out: Vec<Block> = Vec::new();
    let hb = Block { text: header(project, today), ids: Vec::new(), required: true };
    assert(hb@.ids =~= Seq::<Seq<char>>::empty());
    out.push(hb);
    assert(blocks_view(out@) =~= seq![hb@]);
    if overviews.len() > 0 {
        let p = overviews[0];
        let mut text = String::new();
        text.append(p.body.as_str());
        text.append("\n");
        let mut ids: Vec<String> = Vec::new();
        ids.push(p.id.clone());
        let ob = Block { text, ids, required: true };
        assert(ob@.ids =~= seq![p@.id]);
        assert(ob@.text =~= p@.body + "\n"@);
        out.push(ob);
        assert(blocks_view(out@) =~= seq![hb@, ob@]);
    }
    proof {
        let mv = of_project(crate::lint::pages_view(pages@), project@);
        let ov = of_type_spec(mv, PageType::Project);
        let head = seq![
            BlockView { text: header_spec(project@, today.ymd()), ids: seq![], required: true },
        ];
        if ov.len() > 0 {
            assert(blocks_view(out@) =~= head + seq![
                BlockView { text: ov[0].body + "\n"@, ids: seq![ov[0].id], required: true },
            ]);
        } else {
            assert(blocks_view(out@) =~= head + Seq::<BlockView>::empty());
        }
    }
    full_pages(
        "Decisions already taken",
        "Do not re-propose what a Rejected section already ruled out.",
        &pick(&mine, PageType::Decision, true),
        &mut out,
    );
    full_pages(
        "Open questions",
        "Undecided. Do not assume an answer.",
        &pick(&mine, PageType::Open, true),
        &mut out,
    );
    full_pages(
        "Routes already tried",
        "These failed or were dropped. Do not retry one without a new reason.",
        &pick(&mine, PageType::Attempt, false),
        &mut out,
    );
    full_pages(
        "Constraints learned the hard way",
        "Each one cost a debugging session already.",
        &concept_pages(pages),
        &mut out,
    );
    full_pages(
        "Components",
        "Read the constraints on each before touching those files.",
        &pick(&mine, PageType::Component, true),
        &mut out,
    );
    out
}


/// Where filling the brief stands after some blocks.
pub struct FillState {
    pub text: Seq<char>,
    pub included: nat,
    pub dropped: nat,
    /// A block has been dropped, so every later optional block is dropped too.
    pub full: bool,
    /// The ids of the pages the brief carries so far.
    pub shown: Seq<Seq<char>>,
}

pub open spec fn fill_start() -> FillState {
    FillState { text: seq![], included: 0, dropped: 0, full: false, shown: seq![] }
}

/// Take one block: a required block goes in whatever the budget says, and
/// once one block is dropped the rest follow, so the brief never ends up
/// with a low-priority page and no high-priority one. A blank block is
/// skipped.
pub open spec fn fill_step(st: FillState, b: BlockView, budget: nat) -> FillState {
    if trim(b.text).len() == 0 {
        st
    } else if b.required || (!st.full && tokens_for(st.text) + tokens_for(b.text) <= budget) {
        FillState {
            text: st.text + b.text + seq!['\n'],
            included: st.included + b.ids.len(),
            dropped: st.dropped,
            full: st.full,
            shown: st.shown + b.ids,
        }
    } else {
        FillState {
            text: st.text,
            included: st.included,
            dropped: st.dropped + b.ids.len(),
            full: true,
            shown: st.shown,
        }
    }
}

pub open spec fn fill_upto(blocks: Seq<BlockView>, n: int, budget: nat) -> FillState
    decreases n,
{
    if n <= 0 {
        fill_start()
    } else {
        fill_step(fill_upto(blocks, n - 1, budget), blocks[n - 1], budget)
    }
}

/// The line that says how many pages the budget left out, if any.
pub open spec fn dropped_note(n: nat) -> Seq<char> {
    if n > 0 {
        "\n("@ + decimal(n) + " more page(s) left out to stay inside the token budget.)\n"@
    } else {
        seq![]
    }
}

/// The ids with findings among the pages the brief carries, in order.
pub open spec fn flagged_ids(lint: Map<Seq<char>, Seq<FindingView>>, shown: Seq<Seq<char>>) -> Seq<
    Seq<char>,
> {
    sorted_members(lint.dom().filter(|id: Seq<char>| shown.contains(id)))
}

pub open spec fn finding_lines(id: Seq<char>, fs: Seq<FindingView>) -> Seq<char> {
    concat_map(fs, |f: FindingView| "- "@ + id + " "@ + message_spec(f) + "\n"@)
}

pub open spec fn stale_head() -> Seq<char> {
    "\n## Stale, treat with care\n\nThese pages are included above but failed a structural check. Prefer the \nrepository over anything here that they contradict.\n\n"@
}

/// The warnings about pages the brief carries: in the brief itself, so the
/// model reading it knows which lines to distrust.
pub open spec fn warnings_spec(lint: Map<Seq<char>, Seq<FindingView>>, shown: Seq<Seq<char>>) -> Seq<
    char,
> {
    let q = flagged_ids(lint, shown);
    if q.len() == 0 {
        seq![]
    } else {
        stale_head() + concat_map(q, |id: Seq<char>| finding_lines(id, lint[id]))
    }
}

/// The warnings name exactly the pages that have findings and that the brief
/// carries: a warning about a page the reader cannot see is noise, and a
/// flagged page the brief carries is never left unmarked.
pub open spec fn warns_of_exactly_the_shown(lint: Map<Seq<char>, Seq<FindingView>>, shown: Seq<Seq<char>>) -> bool {
    forall|x: Seq<char>|
        #[trigger] flagged_ids(lint, shown).contains(x) <==> lint.contains_key(x) && shown.contains(x)
}

/// The brief made of `blocks` under a budget of `budget` tokens.
pub open spec fn fill_spec(
    blocks: Seq<BlockView>,
    project: Seq<char>,
    budget: nat,
    lint: Map<Seq<char>, Seq<FindingView>>,
) -> PrimerView {
    let st = fill_upto(blocks, blocks.len() as int, budget);
    let text = replace_all(
        st.text + dropped_note(st.dropped) + warnings_spec(lint, st.shown),
        "{{PAGE_COUNT}}"@,
        decimal(st.included),
    );
    PrimerView {
        project,
        text,
        tokens: tokens_for(text),
        pages_included: st.included,
        pages_dropped: st.dropped,
    }
}

pub open spec fn small_ids(bs: Seq<BlockView>) -> bool {
    forall|i: int| 0 <= i < bs.len() ==> (#[trigger] bs[i]).ids.len() <= 1
}

fn is_blank(text: &String) -> (r: bool)
    ensures
        r == (trim(text@).len() == 0),
{
    let v = chars_of(text.as_str());
    let (a, b) = trim_span(&v, 0, v.len());
    assert(v@.subrange(0, v@.len() as int) =~= v@);
    a == b
}

/// Take blocks in order until the budget runs out.
fn take_blocks(blocks: &Vec<Block>, budget: usize) -> (r: (String, usize, usize, Vec<String>))
    requires
        small_ids(blocks_view(blocks@)),
    ensures
        ({
            let st = fill_upto(blocks_view(blocks@), blocks@.len() as int, budget as nat);
            &&& r.0@ == st.text
            &&& r.1 == st.included
            &&& r.2 == st.dropped
            &&& r.3.deep_view() == st.shown
        }),
{
    let ghost bv = blocks_view(blocks@);
    let mut text = String::new();
    let mut included: usize = 0;
    let mut dropped: usize = 0;
    let mut full = false;
    let mut shown: Vec<String> = Vec::new();
    assert(shown.deep_view() =~= Seq::<Seq<char>>::empty());
    let mut k: usize = 0;
    while k < blocks.len()
        invariant
            k <= blocks@.len(),
            bv == blocks_view(blocks@),
            small_ids(bv),
            included + dropped <= k,
            ({
                let st = fill_upto(bv, k as int, budget as nat);
                &&& text@ == st.text
                &&& included == st.included
                &&& dropped == st.dropped
                &&& full == st.full
                &&& shown.deep_view() == st.shown
            }),
        decreases blocks.len() - k,
    {
        let b = &blocks[k];
        assert(bv[k as int] == b@);
        assert(b@.ids.len() <= 1);
        if !is_blank(&b.text) {
            let t0 = estimate_tokens(text.as_str());
            let t1 = estimate_tokens(b.text.as_str());
            proof {
                lemma_tokens_bound(text@);
                lemma_tokens_bound(b.text@);
            }
            let fits = t0 + t1 <= budget;
            if b.required || (!full && fits) {
                text.append(b.text.as_str());
                text.append("\n");
                assert("\n"@ =~= seq!['\n']) by {
                    reveal_strlit("\n");
                }
                let ghost sv = shown.deep_view();
                if b.ids.len() > 0 {
                    shown.push(b.ids[0].clone());
                    assert(shown.deep_view() =~= sv + b@.ids);
                } else {
                    assert(shown.deep_view() =~= sv + b@.ids);
                }
                included = included + b.ids.len();
            } else {
                full = true;
                dropped = dropped + b.ids.len();
            }
        }
        k += 1;
    }
    (text, included, dropped, shown)
}

/// The flagged ids among those shown, in increasing order.
fn flagged(lint: &Report, shown: &Vec<String>) -> (q: Vec<String>)
    ensures
        q.deep_view() == flagged_ids(lint@, shown.deep_view()),
        forall|x: Seq<char>|
            #[trigger] q.deep_view().contains(x) <==> lint@.contains_key(x) && shown.deep_view().contains(x),
{
    let ghost sd = shown.deep_view();
    let ghost set = lint@.dom().filter(|id: Seq<char>| sd.contains(id));
    let ids = lint.ids();
    let mut rest: Vec<String> = Vec::new();
    let mut k: usize = 0;
    while k < ids.len()
        invariant
            k <= ids@.len(),
            sd == shown.deep_view(),
            forall|i: int, j: int|
                0 <= i < j < ids@.len() ==> #[trigger] ids@[i]@ != #[trigger] ids@[j]@,
            forall|i: int, j: int|
                0 <= i < j < rest@.len() ==> #[trigger] rest@[i]@ != #[trigger] rest@[j]@,
            forall|i: int|
                0 <= i < rest@.len() ==> exists|a: int|
                    0 <= a < k && #[trigger] ids@[a]@ == (#[trigger] rest@[i])@,
            forall|i: int| 0 <= i < rest@.len() ==> sd.contains((#[trigger] rest@[i])@),
            forall|a: int|
                0 <= a < k && sd.contains((#[trigger] ids@[a])@) ==> strs(rest@).contains(
                    ids@[a]@,
                ),
        decreases ids.len() - k,
    {
        let ghost r0 = rest@;
        let hit = listed(shown, &ids[k]);
        proof {
            if hit {
                let a = choose|a: int| 0 <= a < shown@.len() && #[trigger] shown@[a]@ == ids@[k as int]@;
                assert(sd[a] == ids@[k as int]@);
            }
            if sd.contains(ids@[k as int]@) {
                let a = choose|a: int| 0 <= a < sd.len() && sd[a] == ids@[k as int]@;
                assert(shown@[a]@ == ids@[k as int]@);
            }
            assert(hit == sd.contains(ids@[k as int]@));
        }
        if hit {
            rest.push(ids[k].clone());
        }
        proof {
            assert forall|i: int, j: int| 0 <= i < j < rest@.len() implies #[trigger] rest@[i]@
                != #[trigger] rest@[j]@ by {
                if j == r0.len() {
                    assert(rest@[i] == r0[i]);
                    let a = choose|a: int| 0 <= a < k && #[trigger] ids@[a]@ == (#[trigger] r0[i])@;
                    assert(ids@[a]@ != ids@[k as int]@);
                } else {
                    assert(rest@[i] == r0[i] && rest@[j] == r0[j]);
                }
            }
            assert forall|i: int| 0 <= i < rest@.len() implies exists|a: int|
                0 <= a < k + 1 && #[trigger] ids@[a]@ == (#[trigger] rest@[i])@ by {
                if i < r0.len() {
                    assert(rest@[i] == r0[i]);
                    let a = choose|a: int| 0 <= a < k && #[trigger] ids@[a]@ == (#[trigger] r0[i])@;
                    assert(ids@[a]@ == rest@[i]@);
                } else {
                    assert(ids@[k as int]@ == rest@[i]@);
                }
            }
            assert forall|i: int| 0 <= i < rest@.len() implies sd.contains((#[trigger] rest@[i])@) by {
                if i < r0.len() {
                    assert(rest@[i] == r0[i]);
                }
            }
            assert forall|a: int|
                0 <= a < k + 1 && sd.contains((#[trigger] ids@[a])@) implies strs(rest@).contains(
                ids@[a]@,
            ) by {
                if a < k {
                    let t = choose|t: int| 0 <= t < strs(r0).len() && strs(r0)[t] == ids@[a]@;
                    assert(strs(rest@)[t] == ids@[a]@);
                } else {
                    assert(strs(rest@)[r0.len() as int] == ids@[a]@);
                }
            }
        }
        k += 1;
    }
    let ghost chosen = flagged_ids(lint@, shown.deep_view());
    let ghost rd = rest.deep_view();
    let q = sort_distinct(rest);
    proof {
        assert forall|x: Seq<char>| #[trigger] q.deep_view().contains(x) <==> set.contains(x) by {
            if set.contains(x) {
                let a = choose|a: int| 0 <= a < ids@.len() && #[trigger] ids@[a]@ == x;
                let t = choose|t: int| 0 <= t < strs(rest@).len() && strs(rest@)[t] == x;
                assert(rd[t] == x);
            }
            if rd.contains(x) {
                let t = choose|t: int| 0 <= t < rd.len() && rd[t] == x;
                assert(rest@[t]@ == x);
                let a = choose|a: int| 0 <= a < ids@.len() && #[trigger] ids@[a]@ == (#[trigger] rest@[t])@;
                assert(lint@.contains_key(x));
            }
        }
        assert(strictly_sorted(chosen) && forall|x: Seq<char>| #[trigger] chosen.contains(x) <==> set.contains(x));
        lemma_sorted_unique(q.deep_view(), chosen);
    }
    q
}


fn push_warnings(out: &mut String, lint: &Report, q: &Vec<String>)
    requires
        forall|i: int| 0 <= i < q@.len() ==> lint@.contains_key((#[trigger] q@[i])@),
    ensures
        final(out)@ == old(out)@ + concat_map(
            q.deep_view(),
            |id: Seq<char>| finding_lines(id, lint@[id]),
        ),
{
    let ghost qd = q.deep_view();
    let ghost f = |id: Seq<char>| finding_lines(id, lint@[id]);
    let ghost o = out@;
    assert(qd.take(0) =~= Seq::<Seq<char>>::empty());
    let mut i: usize = 0;
    while i < q.len()
        invariant
            i <= q@.len(),
            qd == q.deep_view(),
            f == (|id: Seq<char>| finding_lines(id, lint@[id])),
            forall|j: int| 0 <= j < q@.len() ==> lint@.contains_key((#[trigger] q@[j])@),
            out@ == o + concat_map(qd.take(i as int), f),
        decreases q.len() - i,
    {
        proof {
            lemma_concat_map_step(qd, i as int, f);
        }
        let id = &q[i];
        assert(qd[i as int] == id@);
        let fs = match lint.get(id.as_str()) {
            Some(v) => v,
            None => {
                assert(lint@.contains_key(q@[i as int]@));
                return;
            },
        };
        let ghost fv = crate::lint::findings_view(fs@);
        let ghost g = |x: FindingView| "- "@ + id@ + " "@ + message_spec(x) + "\n"@;
        let ghost o2 = out@;
        assert(fv.take(0) =~= Seq::<FindingView>::empty());
        let mut j: usize = 0;
        while j < fs.len()
            invariant
                j <= fs@.len(),
                fv == crate::lint::findings_view(fs@),
                g == (|x: FindingView| "- "@ + id@ + " "@ + message_spec(x) + "\n"@),
                out@ == o2 + concat_map(fv.take(j as int), g),
            decreases fs.len() - j,
        {
            proof {
                lemma_concat_map_step(fv, j as int, g);
            }
            assert(fv[j as int] == fs@[j as int]@);
            out.append("- ");
            out.append(id.as_str());
            out.append(" ");
            let m = fs[j].message();
            out.append(m.as_str());
            out.append("\n");
            assert(out@ =~= o2 + concat_map(fv.take(j + 1), g));
            j += 1;
        }
        assert(fv.take(fv.len() as int) =~= fv);
        assert(finding_lines(id@, lint@[id@]) == concat_map(fv, g));
        assert(out@ =~= o + concat_map(qd.take(i + 1), f));
        i += 1;
    }
    assert(qd.take(qd.len() as int) =~= qd);
}

fn fill(blocks: &Vec<Block>, project: &str, budget: usize, lint: &Report) -> (r: Primer)
    requires
        small_ids(blocks_view(blocks@)),
    ensures
        r@ == fill_spec(blocks_view(blocks@), project@, budget as nat, lint@),
        warns_of_exactly_the_shown(
            lint@,
            fill_upto(blocks_view(blocks@), blocks@.len() as int, budget as nat).shown,
        ),
{
    let (mut text, included, dropped, shown) = take_blocks(blocks, budget);
    let ghost st = fill_upto(blocks_view(blocks@), blocks@.len() as int, budget as nat);
    let ghost t0 = text@;
    if dropped > 0 {
        text.append("\n(");
        push_decimal(&mut text, dropped);
        text.append(" more page(s) left out to stay inside the token budget.)\n");
    }
    let q = flagged(lint, &shown);
    proof {
        let set = lint@.dom().filter(|id: Seq<char>| shown.deep_view().contains(id));
        assert forall|i: int| 0 <= i < q@.len() implies lint@.contains_key((#[trigger] q@[i])@) by {
            assert(q.deep_view()[i] == q@[i]@);
            assert(q.deep_view().contains(q@[i]@));
        }
    }
    assert(text@ == t0 + dropped_note(st.dropped));
    let ghost t1 = text@;
    if q.len() > 0 {
        text.append(
            "\n## Stale, treat with care\n\nThese pages are included above but failed a structural check. Prefer the \nrepository over anything here that they contradict.\n\n",
        );
        push_warnings(&mut text, lint, &q);
    }
    assert(text@ == t1 + warnings_spec(lint@, st.shown));
    let raw = chars_of(text.as_str());
    let pat = chars_of("{{PAGE_COUNT}}");
    proof {
        reveal_strlit("{{PAGE_COUNT}}");
    }
    let count = chars_of(decimal_string(included).as_str());
    let done = replace_exec(&raw, &pat, &count);
    let text = string_of(&done, 0, done.len());
    assert(done@.subrange(0, done@.len() as int) =~= done@);
    let tokens = estimate_tokens(text.as_str());
    Primer {
        project: String::from_str(project),
        text,
        tokens,
        pages_included: included,
        pages_dropped: dropped,
    }
}


proof fn lemma_small_concat(a: Seq<BlockView>, b: Seq<BlockView>)
    requires
        small_ids(a),
        small_ids(b),
    ensures
        small_ids(a + b),
{
    assert forall|i: int| 0 <= i < (a + b).len() implies (#[trigger] (a + b)[i]).ids.len() <= 1 by {
        if i < a.len() {
            assert((a + b)[i] == a[i]);
        } else {
            assert((a + b)[i] == b[i - a.len()]);
        }
    }
}

proof fn lemma_small_blocks(pages: Seq<PageView>, project: Seq<char>, today: (i32, u32, u32))
    ensures
        small_ids(blocks_spec(pages, project, today)),
{
    let mine = of_project(pages, project);
    let overviews = of_type_spec(mine, PageType::Project);
    let head = seq![BlockView { text: header_spec(project, today), ids: seq![], required: true }];
    let overview = if overviews.len() > 0 {
        seq![
            BlockView {
                text: overviews[0].body + "\n"@,
                ids: seq![overviews[0].id],
                required: true,
            },
        ]
    } else {
        Seq::<BlockView>::empty()
    };
    assert(small_ids(head));
    assert(small_ids(overview));
    let g1 = full_pages_spec(
        "Decisions already taken"@,
        "Do not re-propose what a Rejected section already ruled out."@,
        live_spec(mine, PageType::Decision),
    );
    let g2 = full_pages_spec(
        "Open questions"@,
        "Undecided. Do not assume an answer."@,
        live_spec(mine, PageType::Open),
    );
    let g3 = full_pages_spec(
        "Routes already tried"@,
        "These failed or were dropped. Do not retry one without a new reason."@,
        of_type_spec(mine, PageType::Attempt),
    );
    let g4 = full_pages_spec(
        "Constraints learned the hard way"@,
        "Each one cost a debugging session already."@,
        concepts_of(pages),
    );
    let g5 = full_pages_spec(
        "Components"@,
        "Read the constraints on each before touching those files."@,
        live_spec(mine, PageType::Component),
    );
    lemma_small_concat(head, overview);
    lemma_small_concat(head + overview, g1);
    lemma_small_concat(head + overview + g1, g2);
    lemma_small_concat(head + overview + g1 + g2, g3);
    lemma_small_concat(head + overview + g1 + g2 + g3, g4);
    lemma_small_concat(head + overview + g1 + g2 + g3 + g4, g5);
}

/// The brief for `project`: candidate blocks in priority order, filled
/// under a budget of `budget_tokens`, with warnings about the pages it
/// carries that `lint` flags.
pub open spec fn assemble_spec(
    pages: Seq<PageView>,
    project: Seq<char>,
    budget: nat,
    today: (i32, u32, u32),
    lint: Map<Seq<char>, Seq<FindingView>>,
) -> PrimerView {
    fill_spec(blocks_spec(pages, project, today), project, budget, lint)
}

/// Compose the brief for `project` from `pages`.
pub fn assemble(pages: &[Page], project: &str, budget_tokens: usize, today: Date, lint: &Report) -> (r:
    Primer)
    ensures
        r@ == assemble_spec(
            crate::lint::pages_view(pages@),
            project@,
            budget_tokens as nat,
            today.ymd(),
            lint@,
        ),
        warns_of_exactly_the_shown(
            lint@,
            fill_upto(
                blocks_spec(crate::lint::pages_view(pages@), project@, today.ymd()),
                blocks_spec(crate::lint::pages_view(pages@), project@, today.ymd()).len() as int,
                budget_tokens as nat,
            ).shown,
        ),
{
    let bs = blocks(pages, project, &today);
    proof {
        lemma_small_blocks(crate::lint::pages_view(pages@), project@, today.ymd());
    }
    fill(&bs, project, budget_tokens, lint)
}


pub open spec fn ids_count(blocks: Seq<BlockView>, n: int) -> nat
    decreases n,
{
    if n <= 0 {
        0
    } else {
        ids_count(blocks, n - 1) + if trim(blocks[n - 1].text).len() == 0 {
            0
        } else {
            blocks[n - 1].ids.len()
        }
    }
}

/// Every page of a non-blank block is either carried or counted as left out:
/// a brief never silently truncates.
pub proof fn law_every_page_is_counted(blocks: Seq<BlockView>, n: int, budget: nat)
    requires
        0 <= n <= blocks.len(),
    ensures
        fill_upto(blocks, n, budget).included + fill_upto(blocks, n, budget).dropped == ids_count(
            blocks,
            n,
        ),
    decreases n,
{
    if n > 0 {
        law_every_page_is_counted(blocks, n - 1, budget);
    }
}

/// A required block is carried whatever the budget says, so the goal and
/// the next step survive the tightest budget.
pub proof fn law_required_blocks_are_carried(blocks: Seq<BlockView>, n: int, budget: nat, i: int)
    requires
        0 <= i < n <= blocks.len(),
        blocks[i].required,
        trim(blocks[i].text).len() > 0,
    ensures
        contains_seq(fill_upto(blocks, n, budget).text, blocks[i].text),
    decreases n,
{
    let before = fill_upto(blocks, n - 1, budget);
    let after = fill_upto(blocks, n, budget);
    if i == n - 1 {
        lemma_contains_self(blocks[i].text);
        lemma_contains_right(before.text, blocks[i].text, blocks[i].text);
        lemma_contains_left(before.text + blocks[i].text, seq!['\n'], blocks[i].text);
    } else {
        law_required_blocks_are_carried(blocks, n - 1, budget, i);
        if after.text != before.text {
            assert(after.text == before.text + (blocks[n - 1].text + seq!['\n']));
            lemma_contains_left(before.text, blocks[n - 1].text + seq!['\n'], blocks[i].text);
        }
    }
}

/// Once a block is dropped for want of budget, no later optional block is
/// carried: the brief never ends up with a low-priority page and no
/// high-priority one.
pub proof fn law_dropping_is_final(blocks: Seq<BlockView>, n: int, budget: nat, i: int)
    requires
        0 <= i < n <= blocks.len(),
        fill_upto(blocks, i, budget).full,
        !blocks[i].required,
    ensures
        fill_upto(blocks, i + 1, budget).text == fill_upto(blocks, i, budget).text,
        fill_upto(blocks, i + 1, budget).full,
{
}

/// Filling never disturbs what the first block put down, when that block is
/// required and not blank.
proof fn lemma_fill_keeps_head(blocks: Seq<BlockView>, n: int, budget: nat)
    requires
        1 <= n <= blocks.len(),
        blocks[0].required,
        trim(blocks[0].text).len() > 0,
    ensures
        fill_upto(blocks, n, budget).text.len() > blocks[0].text.len(),
        fill_upto(blocks, n, budget).text.subrange(0, blocks[0].text.len() as int)
            == blocks[0].text,
    decreases n,
{
    let h = blocks[0].text;
    if n == 1 {
        assert(fill_upto(blocks, 0, budget) == fill_start());
        assert(fill_upto(blocks, 1, budget).text =~= Seq::<char>::empty() + h + seq!['\n']);
        assert(fill_upto(blocks, 1, budget).text.subrange(0, h.len() as int) =~= h);
    } else {
        lemma_fill_keeps_head(blocks, n - 1, budget);
        let before = fill_upto(blocks, n - 1, budget).text;
        let after = fill_upto(blocks, n, budget).text;
        if after != before {
            assert(after == before + blocks[n - 1].text + seq!['\n']);
            assert(after.subrange(0, h.len() as int) =~= before.subrange(0, h.len() as int));
        }
    }
}

/// The brief's header gives the number of pages the brief carries, not the
/// number found on disk: its text holds "from N wiki pages." where N is its
/// `pages_included`, whatever the budget dropped.
pub proof fn law_header_counts_the_pages_carried(
    pages: Seq<PageView>,
    project: Seq<char>,
    budget: nat,
    today: (i32, u32, u32),
    lint: Map<Seq<char>, Seq<FindingView>>,
)
    ensures
        contains_seq(
            assemble_spec(pages, project, budget, today, lint).text,
            " from "@ + decimal(assemble_spec(pages, project, budget, today, lint).pages_included)
                + " wiki pages."@,
        ),
{
    let bs = blocks_spec(pages, project, today);
    let h = header_spec(project, today);
    let a = "# "@ + project + ": project context\n\nAssembled by Baton on "@ + date_display(
        today.0,
        today.1,
        today.2,
    );
    let from = " from "@;
    let pat = "{{PAGE_COUNT}}"@;
    let wiki = " wiki pages."@;
    let tail = "\n\nEvery entry comes from a page written by the agent that did the work. A page\nmarked superseded or abandoned is kept deliberately: it is history, and the\nreason something is no longer done that way. Each line carries the date its\npage last changed, so a stale claim can be spotted rather than trusted.\n"@;
    reveal_strlit(" from ");
    reveal_strlit("{{PAGE_COUNT}}");
    reveal_strlit(" wiki pages.");
    reveal_strlit("# ");
    assert(h =~= a + from + pat + wiki + tail);
    assert(bs[0] == BlockView { text: h, ids: seq![], required: true });
    assert(h[0] == '#');
    assert(trim(h).len() > 0) by {
        assert(trim_start(h) == h);
        lemma_trim_end_prefix(h);
        if trim_end(h).len() == 0 {
            assert(is_ws(h[0]));
        }
    }
    lemma_fill_keeps_head(bs, bs.len() as int, budget);
    let st = fill_upto(bs, bs.len() as int, budget);
    let t = st.text + dropped_note(st.dropped) + warnings_spec(lint, st.shown);
    let rep = decimal(st.included);
    let m0 = a.len() as int;
    assert forall|k: int| 0 <= k < h.len() implies #[trigger] t[k] == h[k] by {
        assert(st.text.subrange(0, h.len() as int)[k] == h[k]);
    }
    assert(t[m0] == ' ');
    assert forall|k: int| 0 <= k < m0 && #[trigger] starts_at(t, pat, k) implies k + pat.len()
        <= m0 by {
        if k + pat.len() > m0 {
            assert(t.subrange(k, k + pat.len())[m0 - k] == t[m0]);
        }
    }
    let z = lemma_replace_reaches(t, pat, rep, 0, m0);
    assert forall|j: int| m0 <= j < m0 + 6 implies !#[trigger] starts_at(t, pat, j) by {
        assert(t[j] == from[j - m0]);
        if starts_at(t, pat, j) {
            assert(t.subrange(j, j + pat.len())[0] == t[j]);
        }
    }
    lemma_replace_copies(t, pat, rep, m0, m0 + 6);
    assert(t.subrange(m0 + 6, m0 + 20) =~= pat);
    assert(starts_at(t, pat, m0 + 6));
    assert forall|j: int| m0 + 20 <= j < m0 + 32 implies !#[trigger] starts_at(t, pat, j) by {
        assert(t[j] == wiki[j - m0 - 20]);
        if starts_at(t, pat, j) {
            assert(t.subrange(j, j + pat.len())[0] == t[j]);
        }
    }
    lemma_replace_copies(t, pat, rep, m0 + 20, m0 + 32);
    assert(t.subrange(m0, m0 + 6) =~= from);
    assert(t.subrange(m0 + 20, m0 + 32) =~= wiki);
    let out = replace_all(t, pat, rep);
    let target = from + rep + wiki;
    let rest = replace_from(t, pat, rep, m0 + 32);
    assert(out =~= z + (target + rest));
    assert(out.subrange(z.len() as int, (z.len() + target.len()) as int) =~= target);
}

/// No placeholder survives into the brief: its text never holds
/// `{{PAGE_COUNT}}`, whatever the pages say.
pub proof fn law_no_placeholder_survives(
    pages: Seq<PageView>,
    project: Seq<char>,
    budget: nat,
    today: (i32, u32, u32),
    lint: Map<Seq<char>, Seq<FindingView>>,
)
    ensures
        !contains_seq(assemble_spec(pages, project, budget, today, lint).text, "{{PAGE_COUNT}}"@),
{
    let bs = blocks_spec(pages, project, today);
    let st = fill_upto(bs, bs.len() as int, budget);
    let t = st.text + dropped_note(st.dropped) + warnings_spec(lint, st.shown);
    let pat = "{{PAGE_COUNT}}"@;
    let rep = decimal(st.included);
    reveal_strlit("{{PAGE_COUNT}}");
    lemma_decimal_digits(st.included);
    assert(disjoint_chars(rep, pat)) by {
        assert forall|i: int, j: int| 0 <= i < rep.len() && 0 <= j < pat.len() implies rep[i]
            != pat[j] by {
            assert(48 <= rep[i] as u32 <= 57);
        }
    }
    lemma_replace_leaves_none(t, pat, rep, 0);
}

/// A page the brief for `project` may carry: one of the project's own pages,
/// where a decision, open question or component only while current; or a
/// constraint that belongs to no project.
pub open spec fn may_be_offered(q: PageView, project: Seq<char>) -> bool {
    ||| q.fm.project == Some(project) && (q.fm.page_type == PageType::Decision || q.fm.page_type
        == PageType::Open || q.fm.page_type == PageType::Component ==> q.fm.status == Status::Current)
    ||| q.fm.project is None && q.fm.page_type == PageType::Gotcha
}

/// Every page id a block carries is the id of one of `pages` that the brief
/// for `project` may carry.
pub open spec fn offers_only(bs: Seq<BlockView>, pages: Seq<PageView>, project: Seq<char>) -> bool {
    forall|k: int, j: int|
        #![trigger bs[k].ids[j]]
        0 <= k < bs.len() && 0 <= j < bs[k].ids.len() ==> offered_id(pages, project, bs[k].ids[j])
}

/// `id` is the id of one of `pages` that the brief for `project` may carry.
pub open spec fn offered_id(pages: Seq<PageView>, project: Seq<char>, id: Seq<char>) -> bool {
    exists|m: int| 0 <= m < pages.len() && #[trigger] pages[m].id == id && may_be_offered(pages[m], project)
}

proof fn lemma_offers_concat(a: Seq<BlockView>, b: Seq<BlockView>, pages: Seq<PageView>, project: Seq<char>)
    requires
        offers_only(a, pages, project),
        offers_only(b, pages, project),
    ensures
        offers_only(a + b, pages, project),
{
    assert forall|k: int, j: int| 0 <= k < (a + b).len() && 0 <= j < (a + b)[k].ids.len() implies offered_id(
        pages,
        project,
        #[trigger] (a + b)[k].ids[j],
    ) by {
        if k < a.len() {
            assert((a + b)[k] == a[k]);
            assert(offered_id(pages, project, a[k].ids[j]));
        } else {
            assert((a + b)[k] == b[k - a.len()]);
            assert(offered_id(pages, project, b[k - a.len()].ids[j]));
        }
    }
}

proof fn lemma_offers_group(
    heading: Seq<char>,
    note: Seq<char>,
    group: Seq<PageView>,
    pages: Seq<PageView>,
    project: Seq<char>,
)
    requires
        forall|i: int| 0 <= i < group.len() ==> pages.contains(#[trigger] group[i]) && may_be_offered(group[i], project),
    ensures
        offers_only(full_pages_spec(heading, note, group), pages, project),
{
    let bs = full_pages_spec(heading, note, group);
    assert forall|k: int, j: int| 0 <= k < bs.len() && 0 <= j < bs[k].ids.len() implies offered_id(
        pages,
        project,
        #[trigger] bs[k].ids[j],
    ) by {
        assert(bs[k] == page_block(heading, note, k, group[k]));
        assert(pages.contains(group[k]));
        let m = choose|m: int| 0 <= m < pages.len() && pages[m] == group[k];
        assert(pages[m].id == bs[k].ids[j]);
    }
}

proof fn lemma_filter_member(s: Seq<PageView>, pred: spec_fn(PageView) -> bool, i: int)
    requires
        0 <= i < s.filter(pred).len(),
    ensures
        s.contains(s.filter(pred)[i]),
        pred(s.filter(pred)[i]),
{
    s.lemma_filter_pred(pred, i);
    assert(s.filter(pred).contains(s.filter(pred)[i]));
    s.lemma_filter_contains_rev(pred, s.filter(pred)[i]);
}

/// The brief offers only what belongs in it: every page it may carry is one
/// of the given pages, and either the project's own, where a decision, an
/// open question or a component only while it is current, or a constraint
/// that belongs to no project. A superseded decision is history, not what
/// holds, and another project's page is never mixed in.
pub proof fn law_the_brief_offers_only_its_project(pages: Seq<PageView>, project: Seq<char>, today: (i32, u32, u32))
    ensures
        offers_only(blocks_spec(pages, project, today), pages, project),
{
    let mine = of_project(pages, project);
    let pm = |p: PageView| p.fm.project == Some(project);
    assert forall|i: int| 0 <= i < mine.len() implies pages.contains(#[trigger] mine[i]) && mine[i].fm.project
        == Some(project) by {
        lemma_filter_member(pages, pm, i);
    }
    let cur = |p: PageView| p.fm.status == Status::Current;
    assert forall|t: PageType, i: int| 0 <= i < of_type_spec(mine, t).len() implies pages.contains(
        #[trigger] of_type_spec(mine, t)[i],
    ) && of_type_spec(mine, t)[i].fm.project == Some(project) && of_type_spec(mine, t)[i].fm.page_type
        == t by {
        let pt = |p: PageView| p.fm.page_type == t;
        lemma_filter_member(mine, pt, i);
        let x = of_type_spec(mine, t)[i];
        let n = choose|n: int| 0 <= n < mine.len() && mine[n] == x;
        assert(pages.contains(mine[n]));
    }
    assert forall|t: PageType, i: int| 0 <= i < live_spec(mine, t).len() implies pages.contains(
        #[trigger] live_spec(mine, t)[i],
    ) && live_spec(mine, t)[i].fm.project == Some(project) && live_spec(mine, t)[i].fm.page_type == t
        && live_spec(mine, t)[i].fm.status == Status::Current by {
        lemma_filter_member(of_type_spec(mine, t), cur, i);
        let x = live_spec(mine, t)[i];
        let n = choose|n: int| 0 <= n < of_type_spec(mine, t).len() && of_type_spec(mine, t)[n] == x;
        assert(pages.contains(of_type_spec(mine, t)[n]));
    }
    let pc = |p: PageView| p.fm.project is None && p.fm.page_type == PageType::Gotcha;
    assert forall|i: int| 0 <= i < concepts_of(pages).len() implies pages.contains(#[trigger] concepts_of(pages)[i])
        && may_be_offered(concepts_of(pages)[i], project) by {
        lemma_filter_member(pages, pc, i);
    }
    let overviews = of_type_spec(mine, PageType::Project);
    let head = seq![BlockView { text: header_spec(project, today), ids: seq![], required: true }];
    let overview = if overviews.len() > 0 {
        seq![BlockView { text: overviews[0].body + "\n"@, ids: seq![overviews[0].id], required: true }]
    } else {
        Seq::<BlockView>::empty()
    };
    assert(offers_only(head, pages, project));
    assert(offers_only(overview, pages, project)) by {
        if overviews.len() > 0 {
            assert(pages.contains(overviews[0]));
            let m = choose|m: int| 0 <= m < pages.len() && pages[m] == overviews[0];
            assert(overview[0].ids[0] == pages[m].id);
        }
    }
    let g1 = full_pages_spec(
        "Decisions already taken"@,
        "Do not re-propose what a Rejected section already ruled out."@,
        live_spec(mine, PageType::Decision),
    );
    let g2 = full_pages_spec(
        "Open questions"@,
        "Undecided. Do not assume an answer."@,
        live_spec(mine, PageType::Open),
    );
    let g3 = full_pages_spec(
        "Routes already tried"@,
        "These failed or were dropped. Do not retry one without a new reason."@,
        of_type_spec(mine, PageType::Attempt),
    );
    let g4 = full_pages_spec(
        "Constraints learned the hard way"@,
        "Each one cost a debugging session already."@,
        concepts_of(pages),
    );
    let g5 = full_pages_spec(
        "Components"@,
        "Read the constraints on each before touching those files."@,
        live_spec(mine, PageType::Component),
    );
    lemma_offers_group(
        "Decisions already taken"@,
        "Do not re-propose what a Rejected section already ruled out."@,
        live_spec(mine, PageType::Decision),
        pages,
        project,
    );
    lemma_offers_group(
        "Open questions"@,
        "Undecided. Do not assume an answer."@,
        live_spec(mine, PageType::Open),
        pages,
        project,
    );
    lemma_offers_group(
        "Routes already tried"@,
        "These failed or were dropped. Do not retry one without a new reason."@,
        of_type_spec(mine, PageType::Attempt),
        pages,
        project,
    );
    lemma_offers_group(
        "Constraints learned the hard way"@,
        "Each one cost a debugging session already."@,
        concepts_of(pages),
        pages,
        project,
    );
    lemma_offers_group(
        "Components"@,
        "Read the constraints on each before touching those files."@,
        live_spec(mine, PageType::Component),
        pages,
        project,
    );
    lemma_offers_concat(head, overview, pages, project);
    lemma_offers_concat(head + overview, g1, pages, project);
    lemma_offers_concat(head + overview + g1, g2, pages, project);
    lemma_offers_concat(head + overview + g1 + g2, g3, pages, project);
    lemma_offers_concat(head + overview + g1 + g2 + g3, g4, pages, project);
    lemma_offers_concat(head + overview + g1 + g2 + g3 + g4, g5, pages, project);
}

/// `recent_upto` picks a page of `pages[..n]` with a project that no earlier
/// such page was updated after and that every later such page precedes.
proof fn lemma_recent_upto(pages: Seq<PageView>, n: int)
    requires
        0 <= n <= pages.len(),
    ensures
        recent_upto(pages, n) is None <==> forall|j: int| 0 <= j < n ==> (#[trigger] pages[j]).fm.project is None,
        recent_upto(pages, n) matches Some((x, w)) ==> exists|i: int|
            #![trigger pages[i]]
            0 <= i < n && pages[i].fm.project == Some(x) && pages[i].fm.updated == w && forall|j: int|
                0 <= j < n && (#[trigger] pages[j]).fm.project is Some ==> (j < i ==> !date_after(
                    pages[j].fm.updated,
                    w,
                )) && (j > i ==> date_after(w, pages[j].fm.updated)),
    decreases n,
{
    if n > 0 {
        lemma_recent_upto(pages, n - 1);
        let before = recent_upto(pages, n - 1);
        let p = pages[n - 1];
        match p.fm.project {
            None => {
                if before is None {
                    assert forall|j: int| 0 <= j < n implies (#[trigger] pages[j]).fm.project is None by {
                        if j < n - 1 {
                        }
                    }
                }
                match before {
                    Some((x, w)) => {
                        let i = choose|i: int|
                            #![trigger pages[i]]
                            0 <= i < n - 1 && pages[i].fm.project == Some(x) && pages[i].fm.updated == w
                                && forall|j: int|
                                0 <= j < n - 1 && (#[trigger] pages[j]).fm.project is Some ==> (j < i
                                    ==> !date_after(pages[j].fm.updated, w)) && (j > i ==> date_after(
                                    w,
                                    pages[j].fm.updated,
                                ));
                        assert(pages[i].fm.project == Some(x));
                    },
                    None => {},
                }
            },
            Some(xn) => {
                assert(pages[n - 1].fm.project is Some);
                match before {
                    Some((x, w)) => {
                        let i = choose|i: int|
                            #![trigger pages[i]]
                            0 <= i < n - 1 && pages[i].fm.project == Some(x) && pages[i].fm.updated == w
                                && forall|j: int|
                                0 <= j < n - 1 && (#[trigger] pages[j]).fm.project is Some ==> (j < i
                                    ==> !date_after(pages[j].fm.updated, w)) && (j > i ==> date_after(
                                    w,
                                    pages[j].fm.updated,
                                ));
                        if date_after(w, p.fm.updated) {
                            assert(pages[i].fm.project == Some(x));
                        } else {
                            let u = p.fm.updated;
                            assert forall|j: int|
                                0 <= j < n && (#[trigger] pages[j]).fm.project is Some implies (j < n - 1
                                    ==> !date_after(pages[j].fm.updated, u)) && (j > n - 1 ==> date_after(
                                    u,
                                    pages[j].fm.updated,
                                )) by {
                                if j < n - 1 {
                                    if j == i {
                                    } else if j < i {
                                        assert(!date_after(pages[j].fm.updated, w));
                                    } else {
                                        assert(date_after(w, pages[j].fm.updated));
                                    }
                                }
                            }
                            assert(pages[n - 1].fm.project == Some(xn));
                        }
                    },
                    None => {
                        let u = p.fm.updated;
                        assert forall|j: int|
                            0 <= j < n && (#[trigger] pages[j]).fm.project is Some implies (j < n - 1
                                ==> !date_after(pages[j].fm.updated, u)) && (j > n - 1 ==> date_after(
                                u,
                                pages[j].fm.updated,
                            )) by {
                            if j < n - 1 {
                                assert(pages[j].fm.project is None);
                            }
                        }
                        assert(pages[n - 1].fm.project == Some(xn));
                    },
                }
            },
        }
    }
}

/// A brief defaults to the project whose page changed last: no project when
/// no page has one, and otherwise the project of a page that no page with a
/// project was updated after; of several updated that same day, the last in
/// the list, so every later page with a project was updated before it.
pub proof fn law_the_default_project_changed_last(pages: Seq<PageView>)
    ensures
        most_recent_spec(pages) is None <==> forall|j: int| 0 <= j < pages.len() ==> (#[trigger] pages[j]).fm.project is None,
        most_recent_spec(pages) matches Some(x) ==> exists|i: int|
            #![trigger pages[i]]
            0 <= i < pages.len() && pages[i].fm.project == Some(x) && forall|j: int|
                0 <= j < pages.len() && (#[trigger] pages[j]).fm.project is Some ==> !date_after(
                    pages[j].fm.updated,
                    pages[i].fm.updated,
                ) && (j > i ==> date_after(pages[i].fm.updated, pages[j].fm.updated)),
{
    lemma_recent_upto(pages, pages.len() as int);
    match recent_upto(pages, pages.len() as int) {
        Some((x, w)) => {
            let i = choose|i: int|
                #![trigger pages[i]]
                0 <= i < pages.len() && pages[i].fm.project == Some(x) && pages[i].fm.updated == w
                    && forall|j: int|
                    0 <= j < pages.len() && (#[trigger] pages[j]).fm.project is Some ==> (j < i
                        ==> !date_after(pages[j].fm.updated, w)) && (j > i ==> date_after(
                        w,
                        pages[j].fm.updated,
                    ));
            assert forall|j: int|
                0 <= j < pages.len() && (#[trigger] pages[j]).fm.project is Some implies !date_after(
                    pages[j].fm.updated,
                    pages[i].fm.updated,
                ) && (j > i ==> date_after(pages[i].fm.updated, pages[j].fm.updated)) by {
            }
        },
        None => {},
    }
}

#[verifier::spinoff_prover]
proof fn lemma_filter_step<A>(s: Seq<A>, pred: spec_fn(A) -> bool)
    requires
        s.len() > 0,
    ensures
        s.filter(pred) == if pred(s.last()) {
            s.drop_last().filter(pred).push(s.last())
        } else {
            s.drop_last().filter(pred)
        },
{
    reveal(Seq::filter);
}

#[verifier::spinoff_prover]
proof fn lemma_filter_first<A>(s: Seq<A>, pred: spec_fn(A) -> bool, i: int)
    requires
        0 <= i < s.len(),
        pred(s[i]),
        forall|j: int| 0 <= j < i ==> !pred(#[trigger] s[j]),
    ensures
        s.filter(pred).len() > 0,
        s.filter(pred)[0] == s[i],
    decreases s.len(),
{
    let d = s.drop_last();
    let fd = d.filter(pred);
    lemma_filter_step(s, pred);
    if i == s.len() - 1 {
        if fd.len() > 0 {
            d.lemma_filter_pred(pred, 0);
            assert(fd.contains(fd[0]));
            d.lemma_filter_contains_rev(pred, fd[0]);
            let j = choose|j: int| 0 <= j < d.len() && d[j] == fd[0];
            assert(d[j] == s[j]);
        }
        assert(fd.push(s.last())[0] == s.last());
    } else {
        assert forall|j: int| 0 <= j < i implies !pred(#[trigger] d[j]) by {
            assert(d[j] == s[j]);
        }
        lemma_filter_first(d, pred, i);
        assert(d[i] == s[i]);
        if pred(s.last()) {
            assert(fd.push(s.last())[0] == fd[0]);
        }
    }
}

#[verifier::spinoff_prover]
proof fn lemma_filter_filter<A>(s: Seq<A>, a: spec_fn(A) -> bool, b: spec_fn(A) -> bool)
    ensures
        s.filter(a).filter(b) == s.filter(|x: A| a(x) && b(x)),
    decreases s.len(),
{
    reveal(Seq::filter);
    let ab = |x: A| a(x) && b(x);
    if s.len() == 0 {
        assert(s.filter(a) =~= s);
        assert(s.filter(a).filter(b) =~= s.filter(ab));
    } else {
        let d = s.drop_last();
        let e = s.last();
        lemma_filter_filter(d, a, b);
        let fa = d.filter(a);
        assert(s.filter(a) == if a(e) {
            fa.push(e)
        } else {
            fa
        });
        assert(s.filter(ab) == if ab(e) {
            d.filter(ab).push(e)
        } else {
            d.filter(ab)
        });
        if a(e) {
            let g = fa.push(e);
            assert(g.drop_last() =~= fa);
            assert(g.last() == e);
            assert(g.filter(b) == if b(e) {
                fa.filter(b).push(e)
            } else {
                fa.filter(b)
            });
        }
    }
}

/// A text with a character that is not whitespace keeps it through `trim`.
#[verifier::spinoff_prover]
proof fn lemma_trim_keeps(x: Seq<char>, k: int)
    requires
        0 <= k < x.len(),
        !is_ws(x[k]),
    ensures
        trim(x).len() > 0,
{
    crate::text::lemma_trim_start_suffix(x);
    let t = crate::text::trim_start(x);
    let off = x.len() - t.len();
    assert(off <= k) by {
        if k < off {
            assert(is_ws(x[k]));
        }
    }
    assert(t[k - off] == x[k]);
    lemma_trim_end_prefix(t);
    if crate::text::trim_end(t).len() == 0 {
        assert(is_ws(t[k - off]));
    }
}

/// A text that trims to something has a character that is not whitespace.
#[verifier::spinoff_prover]
proof fn lemma_trim_witness(x: Seq<char>) -> (k: int)
    requires
        trim(x).len() > 0,
    ensures
        0 <= k < x.len(),
        !is_ws(x[k]),
{
    crate::text::lemma_trim_start_suffix(x);
    let t = crate::text::trim_start(x);
    let off = x.len() - t.len();
    lemma_trim_end_prefix(t);
    let te = crate::text::trim_end(t);
    assert(te.last() == t[te.len() - 1]);
    assert(t[te.len() - 1] == x[off + te.len() - 1]);
    off + te.len() - 1
}

#[verifier::spinoff_prover]
proof fn lemma_fill_prefix(blocks: Seq<BlockView>, k: int, n: int, budget: nat)
    requires
        0 <= k <= n <= blocks.len(),
    ensures
        fill_upto(blocks, n, budget).text.len() >= fill_upto(blocks, k, budget).text.len(),
        fill_upto(blocks, n, budget).text.subrange(0, fill_upto(blocks, k, budget).text.len() as int)
            == fill_upto(blocks, k, budget).text,
        fill_upto(blocks, n, budget).included >= fill_upto(blocks, k, budget).included,
    decreases n,
{
    let t = fill_upto(blocks, k, budget).text;
    if n == k {
        assert(t.subrange(0, t.len() as int) =~= t);
    } else {
        lemma_fill_prefix(blocks, k, n - 1, budget);
        let before = fill_upto(blocks, n - 1, budget).text;
        let after = fill_upto(blocks, n, budget).text;
        if after != before {
            assert(after == before + blocks[n - 1].text + seq!['\n']);
            assert(after.subrange(0, t.len() as int) =~= before.subrange(0, t.len() as int));
        }
    }
}

/// The project page is always carried: whatever the budget, a brief for a
/// project that has a page of type `project` counts the first such page
/// among the pages it carries and holds its whole body in its text (a body
/// that writes no `{`, so no placeholder can touch it). The goal and the
/// next step are what a brief exists to carry.
#[verifier::spinoff_prover]
pub proof fn law_the_project_page_is_always_carried(
    pages: Seq<PageView>,
    project: Seq<char>,
    budget: nat,
    today: (i32, u32, u32),
    lint: Map<Seq<char>, Seq<FindingView>>,
    i: int,
)
    requires
        0 <= i < pages.len(),
        pages[i].fm.project == Some(project),
        pages[i].fm.page_type == PageType::Project,
        forall|j: int|
            0 <= j < i ==> !((#[trigger] pages[j]).fm.project == Some(project) && pages[j].fm.page_type
                == PageType::Project),
        trim(pages[i].body).len() > 0,
    ensures
        assemble_spec(pages, project, budget, today, lint).pages_included >= 1,
        (forall|k: int| 0 <= k < pages[i].body.len() ==> #[trigger] pages[i].body[k] != '{')
            ==> contains_seq(assemble_spec(pages, project, budget, today, lint).text, pages[i].body),
{
    let q = pages[i];
    let pm = |p: PageView| p.fm.project == Some(project);
    let pt = |p: PageView| p.fm.page_type == PageType::Project;
    let both = |x: PageView| pm(x) && pt(x);
    lemma_filter_filter(pages, pm, pt);
    assert forall|j: int| 0 <= j < i implies !both(#[trigger] pages[j]) by {
        assert(!(pages[j].fm.project == Some(project) && pages[j].fm.page_type == PageType::Project));
    }
    lemma_filter_first(pages, both, i);
    let overviews = of_type_spec(of_project(pages, project), PageType::Project);
    assert(overviews == pages.filter(both));
    assert(overviews.len() > 0 && overviews[0] == q);
    let bs = blocks_spec(pages, project, today);
    let h = header_spec(project, today);
    reveal_strlit("# ");
    reveal_strlit("\n");
    assert(bs[0] == BlockView { text: h, ids: seq![], required: true });
    assert(bs[1] == BlockView { text: q.body + "\n"@, ids: seq![q.id], required: true });
    // both blocks have text, so both are carried
    assert(h[0] == '#');
    assert(!is_ws(h[0]));
    lemma_trim_keeps(h, 0);
    let ob = q.body + "\n"@;
    let kk = lemma_trim_witness(q.body);
    assert(ob[kk] == q.body[kk]);
    lemma_trim_keeps(ob, kk);
    let s1 = fill_upto(bs, 1, budget);
    let s2 = fill_upto(bs, 2, budget);
    assert(fill_upto(bs, 0, budget) == fill_start());
    assert(s1.text == Seq::<char>::empty() + h + seq!['\n']);
    assert(s1.included == 0);
    assert(s2.text == s1.text + ob + seq!['\n']);
    assert(s2.included == 1);
    lemma_fill_prefix(bs, 2, bs.len() as int, budget);
    let st = fill_upto(bs, bs.len() as int, budget);
    assert(st.included >= 1);
    if forall|k: int| 0 <= k < q.body.len() ==> #[trigger] q.body[k] != '{' {
        let t = st.text + dropped_note(st.dropped) + warnings_spec(lint, st.shown);
        let pat = "{{PAGE_COUNT}}"@;
        let rep = decimal(st.included);
        reveal_strlit("{{PAGE_COUNT}}");
        let m: int = h.len() + 1int;
        let e: int = m + q.body.len();
        assert forall|k: int| 0 <= k < s2.text.len() implies #[trigger] t[k] == s2.text[k] by {
            assert(st.text.subrange(0, s2.text.len() as int)[k] == s2.text[k]);
        }
        assert(s2.text[m - 1] == '\n');
        assert forall|k: int| 0 <= k < q.body.len() implies #[trigger] t[m + k] == q.body[k] by {
            assert(s2.text[m + k] == q.body[k]);
        }
        assert forall|k: int| 0 <= k < m && #[trigger] starts_at(t, pat, k) implies k + pat.len()
            <= m by {
            if k + pat.len() > m {
                assert(t.subrange(k, k + pat.len())[m - 1 - k] == t[m - 1]);
            }
        }
        let z = lemma_replace_reaches(t, pat, rep, 0, m);
        assert forall|j: int| m <= j < m + q.body.len() implies !#[trigger] starts_at(t, pat, j) by {
            assert(t[j] == q.body[j - m]);
            if starts_at(t, pat, j) {
                assert(t.subrange(j, j + pat.len())[0] == t[j]);
            }
        }
        lemma_replace_copies(t, pat, rep, m, e);
        assert(t.subrange(m, e) =~= q.body);
        let out = replace_all(t, pat, rep);
        let rest = replace_from(t, pat, rep, e);
        assert(out =~= z + (q.body + rest));
        assert(out.subrange(z.len() as int, (z.len() + q.body.len()) as int) =~= q.body);
    }
}

} // verus!
