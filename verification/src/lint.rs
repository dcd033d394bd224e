//! Structural checks over the wiki.
//!
//! The point is not a report. It is that a stale page announces itself inside
//! the primer, so the model reading a brief is told which lines to distrust.
//!
//! Every check here is free and deterministic: no model, no network. Anything
//! needing judgement (does page A contradict page B?) is out of scope.

use vstd::prelude::*;
use crate::frontmatter::{PageType, Status};
use crate::strings::{
    concat_map, contains_exec, contains_seq, decimal, lemma_concat_map_step, push_decimal,
    word_count, word_count_exec,
};
use crate::text::{chars_of, slice_vec, string_of, trim, trim_span};
use crate::wiki::{
    ascii_lower, eq_ignore_case, eq_ignore_case_exec, links_in, links_spec, links_view, sections_view, LinkView, Page, PageView, Section, SectionView,
};

verus! {

/// The schema's word ceiling. Over it means the granularity test was skipped.
pub const MAX_WORDS: usize = 300;

/// One thing wrong with a page.
#[derive(Debug, Clone, PartialEq, Eq)]
pub enum Finding {
    /// The page has no `#` title line stating its claim, so every listing of
    /// it falls back to its path.
    MissingTitle,
    /// A required section is absent. An empty one still says the question was
    /// asked; a missing one does not.
    MissingSection { heading: String },
    /// A heading that no page type may carry.
    UnknownHeading { heading: String },
    /// A real heading, but not one this page type may carry.
    HeadingOnWrongType { heading: String },
    /// An attempt is a closed thing: never `current`.
    AttemptIsCurrent,
    /// `superseded` without the link to what replaced it.
    SupersededWithoutLink,
    /// Another page claims to supersede this one, but it still reads `current`.
    ContradictedBySuccessor { successor: String },
    /// Nothing links in and it links nowhere.
    Orphan,
    /// The page is not listed in `index.md`.
    MissingFromIndex,
    /// Over the schema's ceiling.
    TooLong { words: usize },
    /// A `[[wiki-link]]` pointing at a page that does not exist.
    BrokenLink { target: String },
}

pub enum FindingView {
    MissingTitle,
    MissingSection(Seq<char>),
    UnknownHeading(Seq<char>),
    HeadingOnWrongType(Seq<char>),
    AttemptIsCurrent,
    SupersededWithoutLink,
    ContradictedBySuccessor(Seq<char>),
    Orphan,
    MissingFromIndex,
    TooLong(nat),
    BrokenLink(Seq<char>),
}

impl View for Finding {
    type V = FindingView;

    open spec fn view(&self) -> FindingView {
        match self {
            Finding::MissingTitle => FindingView::MissingTitle,
            Finding::MissingSection { heading } => FindingView::MissingSection(heading@),
            Finding::UnknownHeading { heading } => FindingView::UnknownHeading(heading@),
            Finding::HeadingOnWrongType { heading } => FindingView::HeadingOnWrongType(heading@),
            Finding::AttemptIsCurrent => FindingView::AttemptIsCurrent,
            Finding::SupersededWithoutLink => FindingView::SupersededWithoutLink,
            Finding::ContradictedBySuccessor { successor } => FindingView::ContradictedBySuccessor(
                successor@,
            ),
            Finding::Orphan => FindingView::Orphan,
            Finding::MissingFromIndex => FindingView::MissingFromIndex,
            Finding::TooLong { words } => FindingView::TooLong(*words as nat),
            Finding::BrokenLink { target } => FindingView::BrokenLink(target@),
        }
    }
}

pub open spec fn findings_view(fs: Seq<Finding>) -> Seq<FindingView> {
    fs.map_values(|f: Finding| f@)
}

/// The sentence a finding reads as, addressed to whoever reads the primer.
pub open spec fn message_spec(f: FindingView) -> Seq<char> {
    match f {
        FindingView::MissingTitle => "has no `#` title line stating its claim"@,
        FindingView::MissingSection(h) => "missing its `## "@ + h + "` section"@,
        FindingView::UnknownHeading(h) => "has an off-schema heading `## "@ + h + "`"@,
        FindingView::HeadingOnWrongType(h) => "carries `## "@ + h
            + "`, which does not belong on this page type"@,
        FindingView::AttemptIsCurrent => "is an attempt marked `current`; an attempt is always closed"@,
        FindingView::SupersededWithoutLink => "is superseded but does not link to what replaced it"@,
        FindingView::ContradictedBySuccessor(s) => "still reads `current`, but "@ + s
            + " says it supersedes this"@,
        FindingView::Orphan => "is linked from nowhere and links nowhere"@,
        FindingView::MissingFromIndex => "is not listed in index.md"@,
        FindingView::TooLong(n) => "is "@ + decimal(n) + " words, over the 300-word limit"@,
        FindingView::BrokenLink(t) => "links to [["@ + t + "]], which does not exist"@,
    }
}

impl Finding {
    /// One line saying what is wrong, not merely which rule fired.
    pub fn message(&self) -> (r: String)
        ensures
            r@ == message_spec(self@),
    {
        let mut out = String::new();
        match self {
            Finding::MissingTitle => {
                out.append("has no `#` title line stating its claim");
            },
            Finding::MissingSection { heading } => {
                out.append("missing its `## ");
                out.append(heading.as_str());
                out.append("` section");
            },
            Finding::UnknownHeading { heading } => {
                out.append("has an off-schema heading `## ");
                out.append(heading.as_str());
                out.append("`");
            },
            Finding::HeadingOnWrongType { heading } => {
                out.append("carries `## ");
                out.append(heading.as_str());
                out.append("`, which does not belong on this page type");
            },
            Finding::AttemptIsCurrent => {
                out.append("is an attempt marked `current`; an attempt is always closed");
            },
            Finding::SupersededWithoutLink => {
                out.append("is superseded but does not link to what replaced it");
            },
            Finding::ContradictedBySuccessor { successor } => {
                out.append("still reads `current`, but ");
                out.append(successor.as_str());
                out.append(" says it supersedes this");
            },
            Finding::Orphan => {
                out.append("is linked from nowhere and links nowhere");
            },
            Finding::MissingFromIndex => {
                out.append("is not listed in index.md");
            },
            Finding::TooLong { words } => {
                out.append("is ");
                push_decimal(&mut out, *words);
                out.append(" words, over the 300-word limit");
            },
            Finding::BrokenLink { target } => {
                out.append("links to [[");
                out.append(target.as_str());
                out.append("]], which does not exist");
            },
        }
        out
    }
}

pub open spec fn strs_view(s: Seq<&str>) -> Seq<Seq<char>> {
    s.map_values(|x: &str| x@)
}

/// Required sections per type, in the order the schema lists them. The schema
/// has no optional per-type headings besides a decision's, so required and
/// allowed coincide.
pub open spec fn required_sections(t: PageType) -> Seq<Seq<char>> {
    match t {
        PageType::Project => seq!["Goal"@, "Current state"@, "Next step"@],
        PageType::Decision => seq!["Decision"@, "Why"@, "Rejected"@],
        PageType::Open => seq!["The question"@, "Options"@, "What it blocks"@],
        PageType::Attempt => seq!["What was tried"@, "Why it failed"@, "What it cost"@],
        PageType::Component => seq!["What it does"@, "Gotchas"@, "Related files"@],
        PageType::Gotcha => seq!["The constraint"@, "The symptom"@, "The fix"@],
    }
}

/// Headings legal on any page type.
pub open spec fn universal_headings() -> Seq<Seq<char>> {
    seq!["Open"@, "Superseded by"@]
}

/// Optional sections a decision page may carry beyond its required three.
pub open spec fn decision_optional() -> Seq<Seq<char>> {
    seq!["Supersedes"@, "Reverses"@, "Known cost"@]
}

fn sections_for(t: PageType) -> (r: Vec<&'static str>)
    ensures
        strs_view(r@) == required_sections(t),
{
    let r = match t {
        PageType::Project => vec!["Goal", "Current state", "Next step"],
        PageType::Decision => vec!["Decision", "Why", "Rejected"],
        PageType::Open => vec!["The question", "Options", "What it blocks"],
        PageType::Attempt => vec!["What was tried", "Why it failed", "What it cost"],
        PageType::Component => vec!["What it does", "Gotchas", "Related files"],
        PageType::Gotcha => vec!["The constraint", "The symptom", "The fix"],
    };
    assert(strs_view(r@) =~= required_sections(t));
    r
}

fn universal() -> (r: Vec<&'static str>)
    ensures
        strs_view(r@) == universal_headings(),
{
    let r = vec!["Open", "Superseded by"];
    assert(strs_view(r@) =~= universal_headings());
    r
}

fn optional_for_decision() -> (r: Vec<&'static str>)
    ensures
        strs_view(r@) == decision_optional(),
{
    let r = vec!["Supersedes", "Reverses", "Known cost"];
    assert(strs_view(r@) =~= decision_optional());
    r
}

/// Whether `h` is one of `list`, ignoring ASCII case.
pub open spec fn any_ci(list: Seq<Seq<char>>, h: Seq<char>) -> bool {
    exists|k: int| 0 <= k < list.len() && eq_ignore_case(#[trigger] list[k], h)
}

fn matches_any(list: &Vec<&'static str>, h: &Vec<char>) -> (r: bool)
    ensures
        r == any_ci(strs_view(list@), h@),
{
    let mut k: usize = 0;
    while k < list.len()
        invariant
            k <= list@.len(),
            forall|j: int| 0 <= j < k ==> !eq_ignore_case(#[trigger] strs_view(list@)[j], h@),
        decreases list.len() - k,
    {
        let w = chars_of(list[k]);
        if eq_ignore_case_exec(&w, h) {
            assert(eq_ignore_case(strs_view(list@)[k as int], h@));
            return true;
        }
        k += 1;
    }
    false
}

/// A heading that belongs to some page type, or to a decision's optional set.
pub open spec fn known_elsewhere(h: Seq<char>) -> bool {
    ||| any_ci(required_sections(PageType::Project), h)
    ||| any_ci(required_sections(PageType::Decision), h)
    ||| any_ci(required_sections(PageType::Open), h)
    ||| any_ci(required_sections(PageType::Attempt), h)
    ||| any_ci(required_sections(PageType::Component), h)
    ||| any_ci(required_sections(PageType::Gotcha), h)
    ||| any_ci(decision_optional(), h)
}

/// What a `## h` heading on a page of type `t` is reported as, if anything.
pub open spec fn heading_finding(t: PageType, h: Seq<char>) -> Option<FindingView> {
    if any_ci(required_sections(t), h) || any_ci(universal_headings(), h) {
        None
    } else if t == PageType::Decision && any_ci(decision_optional(), h) {
        None
    } else if known_elsewhere(h) {
        Some(FindingView::HeadingOnWrongType(h))
    } else {
        Some(FindingView::UnknownHeading(h))
    }
}

fn classify_heading(t: PageType, h: &Vec<char>) -> (r: Option<Finding>)
    ensures
        match r {
            Some(f) => heading_finding(t, h@) == Some(f@),
            None => heading_finding(t, h@) is None,
        },
{
    if matches_any(&sections_for(t), h) || matches_any(&universal(), h) {
        return None;
    }
    if t == PageType::Decision && matches_any(&optional_for_decision(), h) {
        return None;
    }
    let elsewhere = matches_any(&sections_for(PageType::Project), h) || matches_any(
        &sections_for(PageType::Decision),
        h,
    ) || matches_any(&sections_for(PageType::Open), h) || matches_any(
        &sections_for(PageType::Attempt),
        h,
    ) || matches_any(&sections_for(PageType::Component), h) || matches_any(
        &sections_for(PageType::Gotcha),
        h,
    ) || matches_any(&optional_for_decision(), h);
    let heading = string_of(h, 0, h.len());
    assert(h@.subrange(0, h@.len() as int) =~= h@);
    if elsewhere {
        Some(Finding::HeadingOnWrongType { heading })
    } else {
        Some(Finding::UnknownHeading { heading })
    }
}


/// The first section at or after `k` whose trimmed heading is `w`, ignoring
/// ASCII case.
pub open spec fn section_from(secs: Seq<SectionView>, w: Seq<char>, k: int) -> Option<int>
    decreases secs.len() - k,
{
    if k < 0 || k >= secs.len() {
        None
    } else if eq_ignore_case(trim(secs[k].heading), w) {
        Some(k)
    } else {
        section_from(secs, w, k + 1)
    }
}

pub proof fn lemma_section_from(secs: Seq<SectionView>, w: Seq<char>, k: int)
    requires
        0 <= k,
    ensures
        match section_from(secs, w, k) {
            Some(j) => k <= j < secs.len() && eq_ignore_case(trim(secs[j].heading), w),
            None => forall|j: int|
                k <= j < secs.len() ==> !eq_ignore_case(trim(#[trigger] secs[j].heading), w),
        },
    decreases secs.len() - k,
{
    if k < secs.len() && !eq_ignore_case(trim(secs[k].heading), w) {
        lemma_section_from(secs, w, k + 1);
    }
}

fn find_section(secs: &Vec<Section>, w: &Vec<char>) -> (r: Option<usize>)
    ensures
        r matches Some(k) ==> k < secs@.len(),
        match r {
            Some(k) => section_from(sections_view(secs@), w@, 0) == Some(k as int),
            None => section_from(sections_view(secs@), w@, 0) is None,
        },
{
    let ghost sv = sections_view(secs@);
    let mut k: usize = 0;
    while k < secs.len()
        invariant
            k <= secs@.len(),
            sv == sections_view(secs@),
            section_from(sv, w@, k as int) == section_from(sv, w@, 0),
        decreases secs.len() - k,
    {
        let hv = chars_of(secs[k].heading.as_str());
        let (a, b) = trim_span(&hv, 0, hv.len());
        assert(hv@.subrange(0, hv@.len() as int) =~= hv@);
        let h = slice_vec(&hv, a, b);
        if eq_ignore_case_exec(&h, w) {
            return Some(k);
        }
        k += 1;
    }
    None
}

/// The last link of `links[..n]` whose target occurs in `body`.
pub open spec fn last_contained(links: Seq<LinkView>, n: int, body: Seq<char>) -> Option<
    Seq<char>,
>
    decreases n,
{
    if n <= 0 {
        None
    } else if contains_seq(body, links[n - 1].target) {
        Some(links[n - 1].target)
    } else {
        last_contained(links, n - 1, body)
    }
}

/// The page a `## Superseded by` section on `p` names as its replacement: the
/// last of the page's links that the section mentions.
pub open spec fn claimed_successor(p: PageView) -> Option<Seq<char>> {
    match section_from(p.sections, "Superseded by"@, 0) {
        None => None,
        Some(k) => last_contained(p.links, p.links.len() as int, p.sections[k].body),
    }
}

/// The successor recorded for `id` after reading `pages[..n]`: a later claim
/// for the same id replaces an earlier one.
pub open spec fn successor_upto(pages: Seq<PageView>, n: int, id: Seq<char>) -> Option<Seq<char>>
    decreases n,
{
    if n <= 0 {
        None
    } else if pages[n - 1].id == id && claimed_successor(pages[n - 1]) is Some {
        claimed_successor(pages[n - 1])
    } else {
        successor_upto(pages, n - 1, id)
    }
}

pub open spec fn successor(pages: Seq<PageView>, id: Seq<char>) -> Option<Seq<char>> {
    successor_upto(pages, pages.len() as int, id)
}

fn claimed_successor_exec(p: &Page) -> (r: Option<String>)
    ensures
        r.deep_view() == claimed_successor(p@),
{
    let w = chars_of("Superseded by");
    match find_section(&p.sections, &w) {
        None => None,
        Some(k) => {
            let body = chars_of(p.sections[k].body.as_str());
            let ghost lv = p@.links;
            let mut found: Option<String> = None;
            let mut j: usize = 0;
            while j < p.links.len()
                invariant
                    j <= p.links@.len(),
                    lv == p@.links,
                    lv.len() == p.links@.len(),
                    body@ == p@.sections[k as int].body,
                    found.deep_view() == last_contained(lv, j as int, body@),
                decreases p.links.len() - j,
            {
                let t = chars_of(p.links[j].target.as_str());
                assert(t@ == lv[j as int].target);
                if contains_exec(&body, &t) {
                    found = Some(p.links[j].target.clone());
                }
                j += 1;
            }
            found
        },
    }
}

fn successor_exec(pages: &[Page], id: &String) -> (r: Option<String>)
    ensures
        r.deep_view() == successor(pages_view(pages@), id@),
{
    let ghost pv = pages_view(pages@);
    let mut found: Option<String> = None;
    let mut k: usize = 0;
    while k < pages.len()
        invariant
            k <= pages@.len(),
            pv == pages_view(pages@),
            found.deep_view() == successor_upto(pv, k as int, id@),
        decreases pages.len() - k,
    {
        if pages[k].id == *id {
            let c = claimed_successor_exec(&pages[k]);
            if c.is_some() {
                found = c;
            }
        }
        k += 1;
    }
    found
}

pub open spec fn pages_view(ps: Seq<Page>) -> Seq<PageView> {
    ps.map_values(|p: Page| p@)
}

/// Some page links to `id`.
pub open spec fn has_inbound(pages: Seq<PageView>, id: Seq<char>) -> bool {
    exists|k: int, j: int|
        0 <= k < pages.len() && 0 <= j < pages[k].links.len() && #[trigger] pages[k].links[j].target
            == id
}

/// Some page has the id `t`.
pub open spec fn is_page_id(pages: Seq<PageView>, t: Seq<char>) -> bool {
    exists|k: int| 0 <= k < pages.len() && #[trigger] pages[k].id == t
}

fn has_inbound_exec(pages: &[Page], id: &String) -> (r: bool)
    ensures
        r == has_inbound(pages_view(pages@), id@),
{
    let ghost pv = pages_view(pages@);
    let mut k: usize = 0;
    while k < pages.len()
        invariant
            k <= pages@.len(),
            pv == pages_view(pages@),
            forall|a: int, j: int|
                0 <= a < k && 0 <= j < pv[a].links.len() ==> #[trigger] pv[a].links[j].target
                    != id@,
        decreases pages.len() - k,
    {
        let mut j: usize = 0;
        while j < pages[k].links.len()
            invariant
                k < pages@.len(),
                j <= pages@[k as int].links@.len(),
                pv == pages_view(pages@),
                forall|a: int, b: int|
                    0 <= a < k && 0 <= b < pv[a].links.len() ==> #[trigger] pv[a].links[b].target
                        != id@,
                forall|b: int| 0 <= b < j ==> #[trigger] pv[k as int].links[b].target != id@,
            decreases pages[k as int].links@.len() - j,
        {
            assert(pv[k as int].links[j as int].target == pages@[k as int].links@[j as int].target@);
            if pages[k].links[j].target == *id {
                return true;
            }
            j += 1;
        }
        k += 1;
    }
    false
}

fn is_page_id_exec(pages: &[Page], t: &String) -> (r: bool)
    ensures
        r == is_page_id(pages_view(pages@), t@),
{
    let ghost pv = pages_view(pages@);
    let mut k: usize = 0;
    while k < pages.len()
        invariant
            k <= pages@.len(),
            pv == pages_view(pages@),
            forall|a: int| 0 <= a < k ==> #[trigger] pv[a].id != t@,
        decreases pages.len() - k,
    {
        if pages[k].id == *t {
            assert(pv[k as int].id == t@);
            return true;
        }
        k += 1;
    }
    false
}


/// A finding when the page has no title: its `#` line is absent or blank.
pub open spec fn title_findings(p: PageView) -> Seq<FindingView> {
    when(trim(p.title).len() == 0, FindingView::MissingTitle)
}

/// A finding for each required section the page lacks, in schema order.
pub open spec fn missing_findings(p: PageView) -> Seq<FindingView> {
    concat_map(
        required_sections(p.fm.page_type),
        |w: Seq<char>|
            if section_from(p.sections, w, 0) is Some {
                Seq::<FindingView>::empty()
            } else {
                seq![FindingView::MissingSection(w)]
            },
    )
}

/// A finding for each heading the page's type may not carry, in page order.
pub open spec fn heading_findings(p: PageView) -> Seq<FindingView> {
    concat_map(
        p.sections,
        |s: SectionView|
            match heading_finding(p.fm.page_type, trim(s.heading)) {
                Some(f) => seq![f],
                None => Seq::<FindingView>::empty(),
            },
    )
}

/// A finding for each link whose target is no page's id, in link order.
pub open spec fn broken_findings(pages: Seq<PageView>, p: PageView) -> Seq<FindingView> {
    concat_map(
        p.links,
        |l: LinkView|
            if is_page_id(pages, l.target) {
                Seq::<FindingView>::empty()
            } else {
                seq![FindingView::BrokenLink(l.target)]
            },
    )
}

pub open spec fn when(c: bool, f: FindingView) -> Seq<FindingView> {
    if c {
        seq![f]
    } else {
        Seq::<FindingView>::empty()
    }
}

/// The findings that follow from a page's status and its successor.
pub open spec fn status_findings(pages: Seq<PageView>, p: PageView) -> Seq<FindingView> {
    let t = p.fm.page_type;
    let st = p.fm.status;
    let succ = successor(pages, p.id);
    when(t == PageType::Attempt && st == Status::Current, FindingView::AttemptIsCurrent) + when(
        st == Status::Superseded && succ is None,
        FindingView::SupersededWithoutLink,
    ) + match succ {
        Some(x) => when(st == Status::Current, FindingView::ContradictedBySuccessor(x)),
        None => Seq::<FindingView>::empty(),
    }
}

/// The findings about how a reader reaches the page: by a link, or through
/// `index.md` when its listing could be read.
pub open spec fn reach_findings(
    pages: Seq<PageView>,
    indexed: Option<Seq<Seq<char>>>,
    p: PageView,
) -> Seq<FindingView> {
    when(!has_inbound(pages, p.id) && p.links.len() == 0, FindingView::Orphan) + match indexed {
        Some(ix) => when(!ix.contains(p.id), FindingView::MissingFromIndex),
        None => Seq::<FindingView>::empty(),
    }
}

/// A finding when the body is over the word ceiling.
pub open spec fn length_findings(p: PageView) -> Seq<FindingView> {
    when(word_count(p.body) > 300, FindingView::TooLong(word_count(p.body)))
}

/// Everything wrong with page `p`, in the order the checks run. `indexed` is
/// the ids `index.md` lists, or `None` when it cannot be read, in which case
/// the index check is skipped.
pub open spec fn page_findings(
    pages: Seq<PageView>,
    indexed: Option<Seq<Seq<char>>>,
    p: PageView,
) -> Seq<FindingView> {
    title_findings(p) + missing_findings(p) + heading_findings(p) + status_findings(pages, p)
        + reach_findings(
        pages,
        indexed,
        p,
    ) + broken_findings(pages, p) + length_findings(p)
}

fn push_finding(out: &mut Vec<Finding>, f: Finding)
    ensures
        findings_view(final(out)@) == findings_view(old(out)@).push(f@),
{
    out.push(f);
    assert(findings_view(out@) =~= findings_view(old(out)@).push(f@));
}

fn push_missing(out: &mut Vec<Finding>, p: &Page)
    ensures
        findings_view(final(out)@) == findings_view(old(out)@) + missing_findings(p@),
{
    let req = sections_for(p.frontmatter.page_type);
    let ghost rv = required_sections(p@.fm.page_type);
    let ghost f = |w: Seq<char>|
        if section_from(p@.sections, w, 0) is Some {
            Seq::<FindingView>::empty()
        } else {
            seq![FindingView::MissingSection(w)]
        };
    assert(rv.take(0) =~= Seq::<Seq<char>>::empty());
    let mut k: usize = 0;
    while k < req.len()
        invariant
            k <= req@.len(),
            strs_view(req@) == rv,
            rv == required_sections(p@.fm.page_type),
            findings_view(out@) == findings_view(old(out)@) + concat_map(rv.take(k as int), f),
            f == (|w: Seq<char>|
                if section_from(p@.sections, w, 0) is Some {
                    Seq::<FindingView>::empty()
                } else {
                    seq![FindingView::MissingSection(w)]
                }),
        decreases req.len() - k,
    {
        proof {
            lemma_concat_map_step(rv, k as int, f);
        }
        let w = chars_of(req[k]);
        assert(w@ == rv[k as int]);
        if find_section(&p.sections, &w).is_none() {
            push_finding(out, Finding::MissingSection { heading: String::from_str(req[k]) });
        }
        assert(findings_view(out@) =~= findings_view(old(out)@) + concat_map(
            rv.take(k + 1),
            f,
        ));
        k += 1;
    }
    assert(rv.take(rv.len() as int) =~= rv);
}

fn push_headings(out: &mut Vec<Finding>, p: &Page)
    ensures
        findings_view(final(out)@) == findings_view(old(out)@) + heading_findings(p@),
{
    let t = p.frontmatter.page_type;
    let ghost sv = p@.sections;
    let ghost f = |s: SectionView|
        match heading_finding(p@.fm.page_type, trim(s.heading)) {
            Some(f) => seq![f],
            None => Seq::<FindingView>::empty(),
        };
    assert(sv.take(0) =~= Seq::<SectionView>::empty());
    let mut k: usize = 0;
    while k < p.sections.len()
        invariant
            k <= p.sections@.len(),
            sv == p@.sections,
            sv.len() == p.sections@.len(),
            t == p@.fm.page_type,
            findings_view(out@) == findings_view(old(out)@) + concat_map(sv.take(k as int), f),
            f == (|s: SectionView|
                match heading_finding(p@.fm.page_type, trim(s.heading)) {
                    Some(f) => seq![f],
                    None => Seq::<FindingView>::empty(),
                }),
        decreases p.sections.len() - k,
    {
        proof {
            lemma_concat_map_step(sv, k as int, f);
        }
        let hv = chars_of(p.sections[k].heading.as_str());
        let (a, b) = trim_span(&hv, 0, hv.len());
        assert(hv@.subrange(0, hv@.len() as int) =~= hv@);
        let h = slice_vec(&hv, a, b);
        assert(h@ == trim(sv[k as int].heading));
        match classify_heading(t, &h) {
            Some(x) => push_finding(out, x),
            None => {},
        }
        assert(findings_view(out@) =~= findings_view(old(out)@) + concat_map(
            sv.take(k + 1),
            f,
        ));
        k += 1;
    }
    assert(sv.take(sv.len() as int) =~= sv);
}

fn push_broken(out: &mut Vec<Finding>, pages: &[Page], p: &Page)
    ensures
        findings_view(final(out)@) == findings_view(old(out)@) + broken_findings(
            pages_view(pages@),
            p@,
        ),
{
    let ghost pv = pages_view(pages@);
    let ghost lv = p@.links;
    let ghost f = |l: LinkView|
        if is_page_id(pv, l.target) {
            Seq::<FindingView>::empty()
        } else {
            seq![FindingView::BrokenLink(l.target)]
        };
    assert(lv.take(0) =~= Seq::<LinkView>::empty());
    let mut k: usize = 0;
    while k < p.links.len()
        invariant
            k <= p.links@.len(),
            lv == p@.links,
            lv.len() == p.links@.len(),
            pv == pages_view(pages@),
            findings_view(out@) == findings_view(old(out)@) + concat_map(lv.take(k as int), f),
            f == (|l: LinkView|
                if is_page_id(pv, l.target) {
                    Seq::<FindingView>::empty()
                } else {
                    seq![FindingView::BrokenLink(l.target)]
                }),
        decreases p.links.len() - k,
    {
        proof {
            lemma_concat_map_step(lv, k as int, f);
        }
        assert(lv[k as int].target == p.links@[k as int].target@);
        if !is_page_id_exec(pages, &p.links[k].target) {
            push_finding(out, Finding::BrokenLink { target: p.links[k].target.clone() });
        }
        assert(findings_view(out@) =~= findings_view(old(out)@) + concat_map(
            lv.take(k + 1),
            f,
        ));
        k += 1;
    }
    assert(lv.take(lv.len() as int) =~= lv);
}

pub open spec fn ids_view(ids: Option<&Vec<String>>) -> Option<Seq<Seq<char>>> {
    match ids {
        Some(v) => Some(v@.map_values(|s: String| s@)),
        None => None,
    }
}

pub fn listed(ids: &Vec<String>, id: &String) -> (r: bool)
    ensures
        r == ids@.map_values(|s: String| s@).contains(id@),
        r == exists|a: int| 0 <= a < ids@.len() && #[trigger] ids@[a]@ == id@,
{
    let ghost iv = ids@.map_values(|s: String| s@);
    let mut k: usize = 0;
    while k < ids.len()
        invariant
            k <= ids@.len(),
            iv == ids@.map_values(|s: String| s@),
            forall|a: int| 0 <= a < k ==> #[trigger] ids@[a]@ != id@,
        decreases ids.len() - k,
    {
        if ids[k] == *id {
            assert(iv[k as int] == id@);
            return true;
        }
        k += 1;
    }
    assert(!iv.contains(id@)) by {
        if iv.contains(id@) {
            let a = choose|a: int| 0 <= a < iv.len() && iv[a] == id@;
            assert(ids@[a]@ == id@);
        }
    }
    false
}

fn push_status(out: &mut Vec<Finding>, pages: &[Page], p: &Page)
    ensures
        findings_view(final(out)@) == findings_view(old(out)@) + status_findings(
            pages_view(pages@),
            p@,
        ),
{
    let t = p.frontmatter.page_type;
    let st = p.frontmatter.status;
    let ghost o = findings_view(out@);
    if t == PageType::Attempt && st == Status::Current {
        push_finding(out, Finding::AttemptIsCurrent);
    }
    let ghost o1 = findings_view(out@);
    let succ = successor_exec(pages, &p.id);
    if st == Status::Superseded && succ.is_none() {
        push_finding(out, Finding::SupersededWithoutLink);
    }
    let ghost o2 = findings_view(out@);
    if st == Status::Current {
        match &succ {
            Some(x) => push_finding(out, Finding::ContradictedBySuccessor { successor: x.clone() }),
            None => {},
        }
    }
    assert(findings_view(out@) =~= o + status_findings(pages_view(pages@), p@));
}

fn push_reach(out: &mut Vec<Finding>, pages: &[Page], indexed: Option<&Vec<String>>, p: &Page)
    ensures
        findings_view(final(out)@) == findings_view(old(out)@) + reach_findings(
            pages_view(pages@),
            ids_view(indexed),
            p@,
        ),
{
    let ghost o = findings_view(out@);
    if !has_inbound_exec(pages, &p.id) && p.links.len() == 0 {
        push_finding(out, Finding::Orphan);
    }
    match indexed {
        Some(ix) => {
            if !listed(ix, &p.id) {
                push_finding(out, Finding::MissingFromIndex);
            }
        },
        None => {},
    }
    assert(findings_view(out@) =~= o + reach_findings(pages_view(pages@), ids_view(indexed), p@));
}

fn push_title(out: &mut Vec<Finding>, p: &Page)
    ensures
        findings_view(final(out)@) == findings_view(old(out)@) + title_findings(p@),
{
    let ghost o = findings_view(out@);
    let t = chars_of(p.title.as_str());
    let (a, b) = trim_span(&t, 0, t.len());
    assert(t@.subrange(0, t@.len() as int) =~= t@);
    if a == b {
        push_finding(out, Finding::MissingTitle);
    }
    assert(findings_view(out@) =~= o + title_findings(p@));
}

fn push_length(out: &mut Vec<Finding>, p: &Page)
    ensures
        findings_view(final(out)@) == findings_view(old(out)@) + length_findings(p@),
{
    let ghost o = findings_view(out@);
    let body = chars_of(p.body.as_str());
    let words = word_count_exec(&body);
    if words > MAX_WORDS {
        push_finding(out, Finding::TooLong { words });
    }
    assert(findings_view(out@) =~= o + length_findings(p@));
}

/// Every finding for `pages[i]`, in the order the checks run.
fn page_findings_exec(pages: &[Page], indexed: Option<&Vec<String>>, i: usize) -> (r: Vec<Finding>)
    requires
        i < pages@.len(),
    ensures
        findings_view(r@) == page_findings(pages_view(pages@), ids_view(indexed), pages@[i as int]@),
{
    let p = &pages[i];
    let mut out: Vec<Finding> = Vec::new();
    assert(findings_view(out@) =~= Seq::<FindingView>::empty());
    push_title(&mut out, p);
    push_missing(&mut out, p);
    push_headings(&mut out, p);
    push_status(&mut out, pages, p);
    push_reach(&mut out, pages, indexed, p);
    push_broken(&mut out, pages, p);
    push_length(&mut out, p);
    out
}


pub open spec fn entry_views(es: Seq<(String, Vec<Finding>)>) -> Seq<(Seq<char>, Seq<FindingView>)> {
    es.map_values(|e: (String, Vec<Finding>)| (e.0@, findings_view(e.1@)))
}

/// The map a list of entries stands for; a later entry for a key wins.
pub open spec fn entries_map(es: Seq<(Seq<char>, Seq<FindingView>)>) -> Map<
    Seq<char>,
    Seq<FindingView>,
>
    decreases es.len(),
{
    if es.len() == 0 {
        Map::empty()
    } else {
        entries_map(es.drop_last()).insert(es.last().0, es.last().1)
    }
}

pub open spec fn distinct_keys(es: Seq<(Seq<char>, Seq<FindingView>)>) -> bool {
    forall|i: int, j: int| 0 <= i < j < es.len() ==> #[trigger] es[i].0 != #[trigger] es[j].0
}

proof fn lemma_entries_map(es: Seq<(Seq<char>, Seq<FindingView>)>)
    requires
        distinct_keys(es),
    ensures
        forall|k: int|
            0 <= k < es.len() ==> #[trigger] entries_map(es).contains_key(es[k].0)
                && entries_map(es)[es[k].0] == es[k].1,
        forall|id: Seq<char>|
            #[trigger] entries_map(es).contains_key(id) ==> exists|k: int|
                0 <= k < es.len() && #[trigger] es[k].0 == id,
    decreases es.len(),
{
    if es.len() > 0 {
        let d = es.drop_last();
        assert(distinct_keys(d));
        lemma_entries_map(d);
        assert forall|k: int| 0 <= k < es.len() implies #[trigger] entries_map(es).contains_key(
            es[k].0,
        ) && entries_map(es)[es[k].0] == es[k].1 by {
            if k < es.len() - 1 {
                assert(d[k] == es[k]);
                assert(entries_map(d).contains_key(d[k].0));
                assert(es[k].0 != es[es.len() - 1].0);
            }
        }
        assert forall|id: Seq<char>| #[trigger] entries_map(es).contains_key(id) implies exists|
            k: int,
        | 0 <= k < es.len() && #[trigger] es[k].0 == id by {
            if id != es.last().0 {
                assert(entries_map(d).contains_key(id));
                let k = choose|k: int| 0 <= k < d.len() && #[trigger] d[k].0 == id;
                assert(es[k].0 == id);
            } else {
                assert(es[es.len() - 1].0 == id);
            }
        }
    }
}

proof fn lemma_entries_map_update(es: Seq<(Seq<char>, Seq<FindingView>)>, k: int, v: Seq<FindingView>)
    requires
        distinct_keys(es),
        0 <= k < es.len(),
    ensures
        entries_map(es.update(k, (es[k].0, v))) == entries_map(es).insert(es[k].0, v),
    decreases es.len(),
{
    let u = es.update(k, (es[k].0, v));
    let d = es.drop_last();
    if k == es.len() - 1 {
        assert(u.drop_last() =~= d);
        assert(entries_map(u) =~= entries_map(es).insert(es[k].0, v));
    } else {
        assert(distinct_keys(d));
        lemma_entries_map_update(d, k, v);
        assert(u.drop_last() =~= d.update(k, (d[k].0, v)));
        assert(es[k].0 != es[es.len() - 1].0);
        assert(entries_map(u) =~= entries_map(es).insert(es[k].0, v));
    }
}

/// Findings keyed by page id. A page with none is absent.
#[derive(Debug)]
pub struct Report {
    entries: Vec<(String, Vec<Finding>)>,
}

impl View for Report {
    type V = Map<Seq<char>, Seq<FindingView>>;

    closed spec fn view(&self) -> Map<Seq<char>, Seq<FindingView>> {
        entries_map(entry_views(self.entries@))
    }
}

impl Report {
    #[verifier::type_invariant]
    spec fn keys_distinct(self) -> bool {
        distinct_keys(entry_views(self.entries@))
    }

    /// An empty report.
    pub fn new() -> (r: Report)
        ensures
            r@ == Map::<Seq<char>, Seq<FindingView>>::empty(),
    {
        let r = Report { entries: Vec::new() };
        assert(entry_views(r.entries@) =~= Seq::<(Seq<char>, Seq<FindingView>)>::empty());
        r
    }

    fn position(&self, id: &String) -> (r: Option<usize>)
        ensures
            match r {
                Some(k) => k < self.entries@.len() && self.entries@[k as int].0@ == id@,
                None => forall|k: int|
                    0 <= k < self.entries@.len() ==> #[trigger] self.entries@[k].0@ != id@,
            },
    {
        let mut k: usize = 0;
        while k < self.entries.len()
            invariant
                k <= self.entries@.len(),
                forall|j: int| 0 <= j < k ==> #[trigger] self.entries@[j].0@ != id@,
            decreases self.entries.len() - k,
        {
            if self.entries[k].0 == *id {
                return Some(k);
            }
            k += 1;
        }
        None
    }

    proof fn lemma_view(&self)
        requires
            distinct_keys(entry_views(self.entries@)),
        ensures
            forall|k: int|
                0 <= k < self.entries@.len() ==> #[trigger] self@.contains_key(
                    self.entries@[k].0@,
                ) && self@[self.entries@[k].0@] == findings_view(self.entries@[k].1@),
            forall|id: Seq<char>|
                #[trigger] self@.contains_key(id) ==> exists|k: int|
                    0 <= k < self.entries@.len() && #[trigger] self.entries@[k].0@ == id,
    {
        let ev = entry_views(self.entries@);
        lemma_entries_map(ev);
        assert forall|k: int| 0 <= k < self.entries@.len() implies #[trigger] self@.contains_key(
            self.entries@[k].0@,
        ) && self@[self.entries@[k].0@] == findings_view(self.entries@[k].1@) by {
            assert(ev[k] == (self.entries@[k].0@, findings_view(self.entries@[k].1@)));
            assert(entries_map(ev).contains_key(ev[k].0));
        }
        assert forall|id: Seq<char>| #[trigger] self@.contains_key(id) implies exists|k: int|
            0 <= k < self.entries@.len() && #[trigger] self.entries@[k].0@ == id by {
            let k = choose|k: int| 0 <= k < ev.len() && #[trigger] ev[k].0 == id;
            assert(self.entries@[k].0@ == id);
        }
    }

    /// Set the findings recorded for `id`, replacing any it had.
    pub fn insert(&mut self, id: String, findings: Vec<Finding>)
        ensures
            final(self)@ == old(self)@.insert(id@, findings_view(findings@)),
    {
        proof {
            use_type_invariant(&*self);
        }
        let pos = self.position(&id);
        let ghost ev = entry_views(self.entries@);
        let ghost fv = findings_view(findings@);
        let mut es: Vec<(String, Vec<Finding>)> = Vec::new();
        core::mem::swap(&mut es, &mut self.entries);
        match pos {
            Some(k) => {
                es.set(k, (id, findings));
                proof {
                    lemma_entries_map_update(ev, k as int, fv);
                    assert(entry_views(es@) =~= ev.update(k as int, (ev[k as int].0, fv)));
                    assert(distinct_keys(entry_views(es@))) by {
                        let nv = entry_views(es@);
                        assert forall|i: int, j: int| 0 <= i < j < nv.len() implies #[trigger] nv[i].0
                            != #[trigger] nv[j].0 by {
                            assert(nv[i].0 == ev[i].0 && nv[j].0 == ev[j].0);
                        }
                    }
                }
            },
            None => {
                es.push((id, findings));
                assert(entry_views(es@).drop_last() =~= ev);
                assert(distinct_keys(entry_views(es@))) by {
                    let nv = entry_views(es@);
                    assert forall|i: int, j: int| 0 <= i < j < nv.len() implies #[trigger] nv[i].0
                        != #[trigger] nv[j].0 by {
                        if j == nv.len() - 1 {
                            assert(nv[i].0 == ev[i].0);
                            assert(ev[i].0 == old(self).entries@[i].0@);
                        } else {
                            assert(nv[i].0 == ev[i].0 && nv[j].0 == ev[j].0);
                        }
                    }
                }
            },
        }
        self.entries = es;
    }

    /// Append `findings` to what is recorded for `id`. Nothing is recorded for
    /// an empty list, so a page without findings stays absent.
    fn add(&mut self, id: &String, findings: Vec<Finding>)
        ensures
            findings@.len() == 0 ==> final(self)@ == old(self)@,
            findings@.len() > 0 ==> final(self)@ == old(self)@.insert(
                id@,
                (if old(self)@.contains_key(id@) {
                    old(self)@[id@]
                } else {
                    Seq::<FindingView>::empty()
                }) + findings_view(findings@),
            ),
    {
        if findings.len() == 0 {
            return;
        }
        proof {
            use_type_invariant(&*self);
            self.lemma_view();
        }
        let pos = self.position(id);
        let ghost ev = entry_views(self.entries@);
        let mut es: Vec<(String, Vec<Finding>)> = Vec::new();
        core::mem::swap(&mut es, &mut self.entries);
        let mut more = findings;
        match pos {
            Some(k) => {
                let (key, mut have) = es.remove(k);
                let ghost nv = findings_view(have@) + findings_view(more@);
                have.append(&mut more);
                assert(findings_view(have@) =~= nv);
                es.insert(k, (key, have));
                proof {
                    lemma_entries_map_update(ev, k as int, nv);
                    assert(entry_views(es@) =~= ev.update(k as int, (ev[k as int].0, nv)));
                    assert(distinct_keys(entry_views(es@))) by {
                        let w = entry_views(es@);
                        assert forall|i: int, j: int| 0 <= i < j < w.len() implies #[trigger] w[i].0
                            != #[trigger] w[j].0 by {
                            assert(w[i].0 == ev[i].0 && w[j].0 == ev[j].0);
                        }
                    }
                }
            },
            None => {
                es.push((id.clone(), more));
                assert(entry_views(es@).drop_last() =~= ev);
                assert(distinct_keys(entry_views(es@))) by {
                    let w = entry_views(es@);
                    assert forall|i: int, j: int| 0 <= i < j < w.len() implies #[trigger] w[i].0
                        != #[trigger] w[j].0 by {
                        if j == w.len() - 1 {
                            assert(w[i].0 == ev[i].0);
                            assert(ev[i].0 == old(self).entries@[i].0@);
                        } else {
                            assert(w[i].0 == ev[i].0 && w[j].0 == ev[j].0);
                        }
                    }
                }
                assert(!entries_map(ev).contains_key(id@)) by {
                    lemma_entries_map(ev);
                    if entries_map(ev).contains_key(id@) {
                        let k = choose|k: int| 0 <= k < ev.len() && #[trigger] ev[k].0 == id@;
                        assert(es@[k].0@ == id@);
                    }
                }
                assert(Seq::<FindingView>::empty() + findings_view(more@) =~= findings_view(more@));
            },
        }
        self.entries = es;
    }

    /// The findings recorded for `id`.
    pub fn get(&self, id: &str) -> (r: Option<&Vec<Finding>>)
        ensures
            match r {
                Some(v) => self@.contains_key(id@) && findings_view(v@) == self@[id@],
                None => !self@.contains_key(id@),
            },
    {
        proof {
            use_type_invariant(self);
            self.lemma_view();
        }
        let key = String::from_str(id);
        match self.position(&key) {
            Some(k) => {
                assert(self@.contains_key(self.entries@[k as int].0@));
                Some(&self.entries[k].1)
            },
            None => {
                assert(!self@.contains_key(id@)) by {
                    if self@.contains_key(id@) {
                        let k = choose|k: int|
                            0 <= k < self.entries@.len() && #[trigger] self.entries@[k].0@ == id@;
                        assert(self.entries@[k].0@ != key@);
                    }
                }
                None
            },
        }
    }

    /// Whether no page has a finding.
    pub fn is_empty(&self) -> (r: bool)
        ensures
            r == (self@ == Map::<Seq<char>, Seq<FindingView>>::empty()),
    {
        proof {
            use_type_invariant(self);
            self.lemma_view();
        }
        if self.entries.len() == 0 {
            assert(self@ =~= Map::<Seq<char>, Seq<FindingView>>::empty());
            true
        } else {
            assert(self@.contains_key(self.entries@[0].0@));
            false
        }
    }

    /// The ids that have findings, each once.
    pub fn ids(&self) -> (r: Vec<String>)
        ensures
            forall|i: int, j: int| 0 <= i < j < r@.len() ==> #[trigger] r@[i]@ != #[trigger] r@[j]@,
            forall|id: Seq<char>|
                self@.contains_key(id) <==> exists|k: int| 0 <= k < r@.len() && #[trigger] r@[k]@ == id,
    {
        proof {
            use_type_invariant(self);
            self.lemma_view();
        }
        let ghost ev = entry_views(self.entries@);
        let mut r: Vec<String> = Vec::new();
        let mut k: usize = 0;
        while k < self.entries.len()
            invariant
                k <= self.entries@.len(),
                r@.len() == k,
                ev == entry_views(self.entries@),
                distinct_keys(ev),
                forall|j: int| 0 <= j < k ==> #[trigger] r@[j]@ == self.entries@[j].0@,
            decreases self.entries.len() - k,
        {
            r.push(self.entries[k].0.clone());
            k += 1;
        }
        assert forall|i: int, j: int| 0 <= i < j < r@.len() implies #[trigger] r@[i]@
            != #[trigger] r@[j]@ by {
            assert(ev[i].0 != ev[j].0);
        }
        assert forall|id: Seq<char>| self@.contains_key(id) <==> exists|k: int|
            0 <= k < r@.len() && #[trigger] r@[k]@ == id by {
            if self@.contains_key(id) {
                let k = choose|k: int|
                    0 <= k < self.entries@.len() && #[trigger] self.entries@[k].0@ == id;
                assert(r@[k]@ == id);
            }
            if exists|k: int| 0 <= k < r@.len() && #[trigger] r@[k]@ == id {
                let k = choose|k: int| 0 <= k < r@.len() && #[trigger] r@[k]@ == id;
                assert(self@.contains_key(self.entries@[k].0@));
            }
        }
        r
    }
}

impl Default for Report {
    fn default() -> (r: Report)
        ensures
            r@ == Map::<Seq<char>, Seq<FindingView>>::empty(),
    {
        Report::new()
    }
}

/// The findings for every page in `pages[..n]` with the id `id`, in order.
pub open spec fn findings_upto(
    pages: Seq<PageView>,
    indexed: Option<Seq<Seq<char>>>,
    n: int,
    id: Seq<char>,
) -> Seq<FindingView>
    decreases n,
{
    if n <= 0 {
        Seq::<FindingView>::empty()
    } else {
        findings_upto(pages, indexed, n - 1, id) + if pages[n - 1].id == id {
            page_findings(pages, indexed, pages[n - 1])
        } else {
            Seq::<FindingView>::empty()
        }
    }
}

/// The report over `pages[..n]`: each id with at least one finding, mapped to
/// its findings.
pub open spec fn report_upto(
    pages: Seq<PageView>,
    indexed: Option<Seq<Seq<char>>>,
    n: int,
) -> Map<Seq<char>, Seq<FindingView>> {
    Map::new(
        |id: Seq<char>| findings_upto(pages, indexed, n, id).len() > 0,
        |id: Seq<char>| findings_upto(pages, indexed, n, id),
    )
}

/// Every structural check over `pages`. `indexed_ids` is what `index.md`
/// links to, or `None` when it cannot be read: then the missing-from-index
/// check is skipped rather than flagging every page.
#[verifier::spinoff_prover]
#[verifier::rlimit(50)]
pub fn check(pages: &[Page], indexed_ids: Option<&Vec<String>>) -> (r: Report)
    ensures
        r@ == report_upto(pages_view(pages@), ids_view(indexed_ids), pages@.len() as int),
{
    let ghost pv = pages_view(pages@);
    let ghost ix = ids_view(indexed_ids);
    let mut report = Report::new();
    assert(report@ =~= report_upto(pv, ix, 0));
    let mut i: usize = 0;
    while i < pages.len()
        invariant
            i <= pages@.len(),
            pv == pages_view(pages@),
            ix == ids_view(indexed_ids),
            report@ == report_upto(pv, ix, i as int),
        decreases pages.len() - i,
    {
        let fs = page_findings_exec(pages, indexed_ids, i);
        let ghost before = report@;
        let ghost id = pages@[i as int].id@;
        report.add(&pages[i].id, fs);
        assert(pv[i as int] == pages@[i as int]@);
        assert(report@ =~= report_upto(pv, ix, i + 1)) by {
            assert forall|x: Seq<char>| true implies findings_upto(pv, ix, i + 1, x) == findings_upto(
                pv,
                ix,
                i as int,
                x,
            ) + (if pv[i as int].id == x {
                page_findings(pv, ix, pv[i as int])
            } else {
                Seq::<FindingView>::empty()
            }) by {}
            assert forall|x: Seq<char>| x != id implies findings_upto(pv, ix, i + 1, x)
                =~= findings_upto(pv, ix, i as int, x) by {}
            if before.contains_key(id) {
            } else {
                assert(Seq::<FindingView>::empty() + page_findings(pv, ix, pv[i as int])
                    =~= findings_upto(pv, ix, i + 1, id));
            }
        }
        i += 1;
    }
    report
}


/// Whether some link in `ls` targets `t`.
pub open spec fn targets_contain(ls: Seq<LinkView>, t: Seq<char>) -> bool {
    exists|j: int| 0 <= j < ls.len() && #[trigger] ls[j].target == t
}

/// Whether one of `v` reads `t`.
pub open spec fn strings_contain(v: Seq<String>, t: Seq<char>) -> bool {
    exists|k: int| 0 <= k < v.len() && #[trigger] v[k]@ == t
}

/// The ids that the text of `index.md` links to, each once. What reading the
/// file yields is the caller's business: when it cannot be read, the index
/// check is skipped by passing `None` to `check`.
pub fn indexed_ids_in(root: &str, text: &str) -> (r: Vec<String>)
    ensures
        forall|i: int, j: int| 0 <= i < j < r@.len() ==> #[trigger] r@[i]@ != #[trigger] r@[j]@,
        forall|k: int| 0 <= k < r@.len() ==> targets_contain(links_spec(root@, text@), #[trigger] r@[k]@),
        forall|j: int|
            0 <= j < links_spec(root@, text@).len() ==> strings_contain(
                r@,
                (#[trigger] links_spec(root@, text@)[j]).target,
            ),
{
    let links = links_in(root, text);
    let ghost ls = links_spec(root@, text@);
    let mut r: Vec<String> = Vec::new();
    let mut k: usize = 0;
    while k < links.len()
        invariant
            k <= links@.len(),
            ls == links_view(links@),
            ls.len() == links@.len(),
            forall|i: int, j: int| 0 <= i < j < r@.len() ==> #[trigger] r@[i]@ != #[trigger] r@[j]@,
            forall|a: int| 0 <= a < r@.len() ==> targets_contain(ls, #[trigger] r@[a]@),
            forall|j: int|
                0 <= j < k ==> exists|a: int| 0 <= a < r@.len() && #[trigger] r@[a]@ == (#[trigger] ls[j]).target,
        decreases links.len() - k,
    {
        let ghost t0 = links@[k as int].target@;
        assert(ls[k as int].target == t0);
        let ghost r0 = r@;
        if !listed(&r, &links[k].target) {
            r.push(links[k].target.clone());
            assert forall|i: int, j: int| 0 <= i < j < r@.len() implies #[trigger] r@[i]@
                != #[trigger] r@[j]@ by {
                if j == r@.len() - 1 {
                    assert(r0.map_values(|s: String| s@)[i] == r@[i]@);
                }
            }
            assert forall|a: int| 0 <= a < r@.len() implies targets_contain(ls, #[trigger] r@[a]@) by {
                if a == r@.len() - 1 {
                    assert(ls[k as int].target == r@[a]@);
                } else {
                    assert(r0[a] == r@[a]);
                }
            }
            assert forall|j: int| 0 <= j < k + 1 implies exists|a: int|
                0 <= a < r@.len() && #[trigger] r@[a]@ == (#[trigger] ls[j]).target by {
                if j == k {
                    assert(r@[r@.len() - 1]@ == ls[j].target);
                } else {
                    let a = choose|a: int| 0 <= a < r0.len() && #[trigger] r0[a]@ == ls[j].target;
                    assert(r@[a] == r0[a]);
                }
            }
        } else {
            assert forall|j: int| 0 <= j < k + 1 implies exists|a: int|
                0 <= a < r@.len() && #[trigger] r@[a]@ == (#[trigger] ls[j]).target by {
                if j == k {
                    let a = choose|a: int| 0 <= a < r@.len() && #[trigger] r@[a]@ == t0;
                    assert(r@[a]@ == ls[j].target);
                }
            }
        }
        k += 1;
    }
    assert forall|j: int| 0 <= j < ls.len() implies strings_contain(
        r@,
        (#[trigger] links_spec(root@, text@)[j]).target,
    ) by {
        let a = choose|a: int| 0 <= a < r@.len() && #[trigger] r@[a]@ == (#[trigger] ls[j]).target;
        assert(r@[a]@ == links_spec(root@, text@)[j].target);
    }
    r
}


proof fn lemma_concat_map_avoids<A>(s: Seq<A>, f: spec_fn(A) -> Seq<FindingView>, bad: FindingView)
    requires
        forall|x: A| !(#[trigger] f(x)).contains(bad),
    ensures
        !concat_map(s, f).contains(bad),
    decreases s.len(),
{
    if s.len() > 0 {
        lemma_concat_map_avoids(s.drop_last(), f, bad);
        let a = concat_map(s.drop_last(), f);
        let b = f(s.last());
        assert(!b.contains(bad));
        if (a + b).contains(bad) {
            let i = choose|i: int| 0 <= i < (a + b).len() && (a + b)[i] == bad;
            if i < a.len() {
                assert(a[i] == bad);
            } else {
                assert(b[i - a.len()] == bad);
            }
        }
    }
}

proof fn lemma_concat_avoids(a: Seq<FindingView>, b: Seq<FindingView>, bad: FindingView)
    requires
        !a.contains(bad),
        !b.contains(bad),
    ensures
        !(a + b).contains(bad),
{
    if (a + b).contains(bad) {
        let i = choose|i: int| 0 <= i < (a + b).len() && (a + b)[i] == bad;
        if i < a.len() {
            assert(a[i] == bad);
        } else {
            assert(b[i - a.len()] == bad);
        }
    }
}

/// When `index.md` cannot be read, no page is reported missing from it: the
/// check is skipped rather than flagging every page, which would tell the
/// reader of a brief to distrust all of it.
pub proof fn law_unreadable_index_flags_nothing(pages: Seq<PageView>, p: PageView)
    ensures
        !page_findings(pages, None, p).contains(FindingView::MissingFromIndex),
{
    let bad = FindingView::MissingFromIndex;
    let f1 = |w: Seq<char>|
        if section_from(p.sections, w, 0) is Some {
            Seq::<FindingView>::empty()
        } else {
            seq![FindingView::MissingSection(w)]
        };
    assert forall|x: Seq<char>| !(#[trigger] f1(x)).contains(bad) by {
        if f1(x).len() > 0 {
            assert(f1(x)[0] != bad);
        }
    }
    lemma_concat_map_avoids(required_sections(p.fm.page_type), f1, bad);
    let f2 = |s: SectionView|
        match heading_finding(p.fm.page_type, trim(s.heading)) {
            Some(f) => seq![f],
            None => Seq::<FindingView>::empty(),
        };
    assert forall|x: SectionView| !(#[trigger] f2(x)).contains(bad) by {
        if f2(x).len() > 0 {
            assert(f2(x)[0] != bad);
        }
    }
    lemma_concat_map_avoids(p.sections, f2, bad);
    let f3 = |l: LinkView|
        if is_page_id(pages, l.target) {
            Seq::<FindingView>::empty()
        } else {
            seq![FindingView::BrokenLink(l.target)]
        };
    assert forall|x: LinkView| !(#[trigger] f3(x)).contains(bad) by {
        if f3(x).len() > 0 {
            assert(f3(x)[0] != bad);
        }
    }
    lemma_concat_map_avoids(p.links, f3, bad);
    let st = status_findings(pages, p);
    assert(!st.contains(bad)) by {
        if st.contains(bad) {
            let i = choose|i: int| 0 <= i < st.len() && st[i] == bad;
        }
    }
    let re = reach_findings(pages, None, p);
    assert(!re.contains(bad)) by {
        if re.contains(bad) {
            let i = choose|i: int| 0 <= i < re.len() && re[i] == bad;
        }
    }
    let le = length_findings(p);
    assert(!le.contains(bad)) by {
        if le.contains(bad) {
            let i = choose|i: int| 0 <= i < le.len() && le[i] == bad;
        }
    }
    let ti = title_findings(p);
    assert(!ti.contains(bad)) by {
        if ti.contains(bad) {
            let i = choose|i: int| 0 <= i < ti.len() && ti[i] == bad;
        }
    }
    lemma_concat_avoids(ti, missing_findings(p), bad);
    lemma_concat_avoids(ti + missing_findings(p), heading_findings(p), bad);
    lemma_concat_avoids(ti + missing_findings(p) + heading_findings(p), st, bad);
    lemma_concat_avoids(ti + missing_findings(p) + heading_findings(p) + st, re, bad);
    lemma_concat_avoids(
        ti + missing_findings(p) + heading_findings(p) + st + re,
        broken_findings(pages, p),
        bad,
    );
    lemma_concat_avoids(
        ti + missing_findings(p) + heading_findings(p) + st + re + broken_findings(pages, p),
        le,
        bad,
    );
}

/// A page is flagged for a missing title exactly when its `#` line is absent
/// or blank: every page carries a title stating its claim.
pub proof fn law_missing_title_is_flagged(pages: Seq<PageView>, indexed: Option<Seq<Seq<char>>>, p: PageView)
    ensures
        page_findings(pages, indexed, p).contains(FindingView::MissingTitle) <==> trim(p.title).len()
            == 0,
{
    let bad = FindingView::MissingTitle;
    let all = page_findings(pages, indexed, p);
    let ti = title_findings(p);
    if trim(p.title).len() == 0 {
        assert(all[0] == bad);
        return;
    }
    assert(ti =~= Seq::<FindingView>::empty());
    let f1 = |w: Seq<char>|
        if section_from(p.sections, w, 0) is Some {
            Seq::<FindingView>::empty()
        } else {
            seq![FindingView::MissingSection(w)]
        };
    assert forall|x: Seq<char>| !(#[trigger] f1(x)).contains(bad) by {
        if f1(x).len() > 0 {
            assert(f1(x)[0] != bad);
        }
    }
    lemma_concat_map_avoids(required_sections(p.fm.page_type), f1, bad);
    let f2 = |s: SectionView|
        match heading_finding(p.fm.page_type, trim(s.heading)) {
            Some(f) => seq![f],
            None => Seq::<FindingView>::empty(),
        };
    assert forall|x: SectionView| !(#[trigger] f2(x)).contains(bad) by {
        if f2(x).len() > 0 {
            assert(f2(x)[0] != bad) by {
                match heading_finding(p.fm.page_type, trim(x.heading)) {
                    Some(f) => {
                        assert(f is UnknownHeading || f is HeadingOnWrongType);
                    },
                    None => {},
                }
            }
        }
    }
    lemma_concat_map_avoids(p.sections, f2, bad);
    let f3 = |l: LinkView|
        if is_page_id(pages, l.target) {
            Seq::<FindingView>::empty()
        } else {
            seq![FindingView::BrokenLink(l.target)]
        };
    assert forall|x: LinkView| !(#[trigger] f3(x)).contains(bad) by {
        if f3(x).len() > 0 {
            assert(f3(x)[0] != bad);
        }
    }
    lemma_concat_map_avoids(p.links, f3, bad);
    let st = status_findings(pages, p);
    assert(!st.contains(bad)) by {
        if st.contains(bad) {
            let i = choose|i: int| 0 <= i < st.len() && st[i] == bad;
        }
    }
    let re = reach_findings(pages, indexed, p);
    assert(!re.contains(bad)) by {
        if re.contains(bad) {
            let i = choose|i: int| 0 <= i < re.len() && re[i] == bad;
        }
    }
    let le = length_findings(p);
    assert(!le.contains(bad)) by {
        if le.contains(bad) {
            let i = choose|i: int| 0 <= i < le.len() && le[i] == bad;
        }
    }
    lemma_concat_avoids(ti, missing_findings(p), bad);
    lemma_concat_avoids(ti + missing_findings(p), heading_findings(p), bad);
    lemma_concat_avoids(ti + missing_findings(p) + heading_findings(p), st, bad);
    lemma_concat_avoids(ti + missing_findings(p) + heading_findings(p) + st, re, bad);
    lemma_concat_avoids(
        ti + missing_findings(p) + heading_findings(p) + st + re,
        broken_findings(pages, p),
        bad,
    );
    lemma_concat_avoids(
        ti + missing_findings(p) + heading_findings(p) + st + re + broken_findings(pages, p),
        le,
        bad,
    );
}

/// Headings are matched the same way everywhere: a section whose heading is
/// a required one in another letter case both satisfies the requirement and
/// draws no heading finding, so no page is at once complete and off-schema.
pub proof fn law_heading_case_is_consistent(p: PageView, k: int, w: Seq<char>)
    requires
        0 <= k < p.sections.len(),
        required_sections(p.fm.page_type).contains(w),
        eq_ignore_case(trim(p.sections[k].heading), w),
    ensures
        !missing_findings(p).contains(FindingView::MissingSection(w)),
        heading_finding(p.fm.page_type, trim(p.sections[k].heading)) is None,
{
    let t = p.fm.page_type;
    let h = trim(p.sections[k].heading);
    lemma_section_from(p.sections, w, 0);
    assert(section_from(p.sections, w, 0) is Some);
    let j = choose|j: int| 0 <= j < required_sections(t).len() && required_sections(t)[j] == w;
    assert(eq_ignore_case(required_sections(t)[j], h)) by {
        assert forall|q: int| 0 <= q < w.len() implies ascii_lower(w[q]) == ascii_lower(h[q]) by {}
    }
    assert(any_ci(required_sections(t), h));
    let bad = FindingView::MissingSection(w);
    let f1 = |x: Seq<char>|
        if section_from(p.sections, x, 0) is Some {
            Seq::<FindingView>::empty()
        } else {
            seq![FindingView::MissingSection(x)]
        };
    assert forall|x: Seq<char>| !(#[trigger] f1(x)).contains(bad) by {
        if f1(x).len() > 0 {
            assert(f1(x)[0] == FindingView::MissingSection(x));
            if x == w {
                assert(section_from(p.sections, w, 0) is Some);
            }
        }
    }
    lemma_concat_map_avoids(required_sections(t), f1, bad);
}

proof fn lemma_add_contains<A>(a: Seq<A>, b: Seq<A>, y: A)
    ensures
        (a + b).contains(y) <==> (a.contains(y) || b.contains(y)),
{
    if (a + b).contains(y) {
        let i = choose|i: int| 0 <= i < (a + b).len() && (a + b)[i] == y;
        if i < a.len() {
            assert(a[i] == y);
        } else {
            assert(b[i - a.len()] == y);
        }
    }
    if a.contains(y) {
        let i = choose|i: int| 0 <= i < a.len() && a[i] == y;
        assert((a + b)[i] == y);
    }
    if b.contains(y) {
        let i = choose|i: int| 0 <= i < b.len() && b[i] == y;
        assert((a + b)[a.len() + i] == y);
    }
}

proof fn lemma_concat_map_contains<A, B>(s: Seq<A>, f: spec_fn(A) -> Seq<B>, y: B)
    ensures
        concat_map(s, f).contains(y) <==> exists|i: int| 0 <= i < s.len() && #[trigger] f(s[i]).contains(y),
    decreases s.len(),
{
    if s.len() > 0 {
        let d = s.drop_last();
        lemma_concat_map_contains(d, f, y);
        lemma_add_contains(concat_map(d, f), f(s.last()), y);
        if exists|i: int| 0 <= i < s.len() && #[trigger] f(s[i]).contains(y) {
            let i = choose|i: int| 0 <= i < s.len() && #[trigger] f(s[i]).contains(y);
            if i < d.len() {
                assert(f(d[i]).contains(y));
            }
        }
        if exists|i: int| 0 <= i < d.len() && #[trigger] f(d[i]).contains(y) {
            let i = choose|i: int| 0 <= i < d.len() && #[trigger] f(d[i]).contains(y);
            assert(f(s[i]).contains(y));
        }
    }
}

proof fn lemma_findings_contain(pages: Seq<PageView>, indexed: Option<Seq<Seq<char>>>, p: PageView, y: FindingView)
    ensures
        page_findings(pages, indexed, p).contains(y) <==> (title_findings(p).contains(y)
            || missing_findings(p).contains(y) || heading_findings(p).contains(y)
            || status_findings(pages, p).contains(y) || reach_findings(pages, indexed, p).contains(y)
            || broken_findings(pages, p).contains(y) || length_findings(p).contains(y)),
{
    let a = title_findings(p);
    let b = missing_findings(p);
    let c = heading_findings(p);
    let d = status_findings(pages, p);
    let e = reach_findings(pages, indexed, p);
    let f = broken_findings(pages, p);
    let g = length_findings(p);
    lemma_add_contains(a, b, y);
    lemma_add_contains(a + b, c, y);
    lemma_add_contains(a + b + c, d, y);
    lemma_add_contains(a + b + c + d, e, y);
    lemma_add_contains(a + b + c + d + e, f, y);
    lemma_add_contains(a + b + c + d + e + f, g, y);
}

proof fn lemma_when_contains(c: bool, f: FindingView, y: FindingView)
    ensures
        (when(c, f).contains(y)) <==> (c && f == y),
{
    if c && f == y {
        assert(when(c, f)[0] == y);
    }
}

/// A page lacks a required section exactly when the finding says so: it is
/// reported missing `w` iff `w` is one of its type's required headings and
/// no section's trimmed heading equals `w` up to ASCII case.
pub proof fn law_missing_section_is_flagged(
    pages: Seq<PageView>,
    indexed: Option<Seq<Seq<char>>>,
    p: PageView,
    w: Seq<char>,
)
    ensures
        page_findings(pages, indexed, p).contains(FindingView::MissingSection(w)) <==> (
        required_sections(p.fm.page_type).contains(w) && forall|k: int|
            0 <= k < p.sections.len() ==> !eq_ignore_case(trim(#[trigger] p.sections[k].heading), w)),
{
    let y = FindingView::MissingSection(w);
    lemma_findings_contain(pages, indexed, p, y);
    lemma_when_contains(trim(p.title).len() == 0, FindingView::MissingTitle, y);
    assert(!title_findings(p).contains(y));
    let req = required_sections(p.fm.page_type);
    let f1 = |x: Seq<char>|
        if section_from(p.sections, x, 0) is Some {
            Seq::<FindingView>::empty()
        } else {
            seq![FindingView::MissingSection(x)]
        };
    assert(missing_findings(p) == concat_map(req, f1));
    lemma_concat_map_contains(req, f1, y);
    lemma_section_from(p.sections, w, 0);
    let absent = forall|k: int|
        0 <= k < p.sections.len() ==> !eq_ignore_case(trim(#[trigger] p.sections[k].heading), w);
    assert(absent <==> section_from(p.sections, w, 0) is None) by {
        if section_from(p.sections, w, 0) is Some {
            let j = section_from(p.sections, w, 0)->0;
            assert(eq_ignore_case(trim(p.sections[j].heading), w));
        }
    }
    if missing_findings(p).contains(y) {
        let i = choose|i: int| 0 <= i < req.len() && #[trigger] f1(req[i]).contains(y);
        let q = choose|q: int| 0 <= q < f1(req[i]).len() && #[trigger] f1(req[i])[q] == y;
        assert(f1(req[i]).len() == 1);
        assert(req[i] == w);
        assert(req.contains(w));
        assert(section_from(p.sections, w, 0) is None);
    }
    if req.contains(w) && absent {
        let i = choose|i: int| 0 <= i < req.len() && req[i] == w;
        assert(f1(req[i]) == seq![y]);
        assert(f1(req[i])[0] == y);
        assert(f1(req[i]).contains(y));
        assert(missing_findings(p).contains(y));
    }
    let f2 = |s: SectionView|
        match heading_finding(p.fm.page_type, trim(s.heading)) {
            Some(f) => seq![f],
            None => Seq::<FindingView>::empty(),
        };
    assert forall|x: SectionView| !(#[trigger] f2(x)).contains(y) by {
        if f2(x).len() > 0 {
            assert(f2(x)[0] != y);
        }
    }
    lemma_concat_map_avoids(p.sections, f2, y);
    let f3 = |l: LinkView|
        if is_page_id(pages, l.target) {
            Seq::<FindingView>::empty()
        } else {
            seq![FindingView::BrokenLink(l.target)]
        };
    assert forall|x: LinkView| !(#[trigger] f3(x)).contains(y) by {
        if f3(x).len() > 0 {
            assert(f3(x)[0] != y);
        }
    }
    lemma_concat_map_avoids(p.links, f3, y);
    let st = status_findings(pages, p);
    assert(!st.contains(y)) by {
        if st.contains(y) {
            let i = choose|i: int| 0 <= i < st.len() && st[i] == y;
        }
    }
    let re = reach_findings(pages, indexed, p);
    assert(!re.contains(y)) by {
        if re.contains(y) {
            let i = choose|i: int| 0 <= i < re.len() && re[i] == y;
        }
    }
    let le = length_findings(p);
    assert(!le.contains(y)) by {
        if le.contains(y) {
            let i = choose|i: int| 0 <= i < le.len() && le[i] == y;
        }
    }
}

/// A heading the page's type may not carry is reported exactly once per
/// kind it is: the report holds the finding `f` about heading `h` iff some
/// section's trimmed heading is `h` and the schema's rule for the type gives
/// `f` for it: off-schema when no type may carry `h`, misplaced when
/// another may.
pub proof fn law_heading_findings_follow_the_schema(
    pages: Seq<PageView>,
    indexed: Option<Seq<Seq<char>>>,
    p: PageView,
    h: Seq<char>,
    f: FindingView,
)
    requires
        f == FindingView::UnknownHeading(h) || f == FindingView::HeadingOnWrongType(h),
    ensures
        page_findings(pages, indexed, p).contains(f) <==> exists|k: int|
            0 <= k < p.sections.len() && trim(#[trigger] p.sections[k].heading) == h
                && heading_finding(p.fm.page_type, h) == Some(f),
{
    lemma_findings_contain(pages, indexed, p, f);
    lemma_when_contains(trim(p.title).len() == 0, FindingView::MissingTitle, f);
    let f1 = |x: Seq<char>|
        if section_from(p.sections, x, 0) is Some {
            Seq::<FindingView>::empty()
        } else {
            seq![FindingView::MissingSection(x)]
        };
    assert forall|x: Seq<char>| !(#[trigger] f1(x)).contains(f) by {
        if f1(x).len() > 0 {
            assert(f1(x)[0] != f);
        }
    }
    lemma_concat_map_avoids(required_sections(p.fm.page_type), f1, f);
    let f2 = |s: SectionView|
        match heading_finding(p.fm.page_type, trim(s.heading)) {
            Some(g) => seq![g],
            None => Seq::<FindingView>::empty(),
        };
    assert(heading_findings(p) == concat_map(p.sections, f2));
    lemma_concat_map_contains(p.sections, f2, f);
    if heading_findings(p).contains(f) {
        let i = choose|i: int| 0 <= i < p.sections.len() && #[trigger] f2(p.sections[i]).contains(f);
        let q = choose|q: int| 0 <= q < f2(p.sections[i]).len() && #[trigger] f2(p.sections[i])[q] == f;
        assert(f2(p.sections[i]).len() == 1);
        assert(f2(p.sections[i])[0] == f);
        let g = heading_finding(p.fm.page_type, trim(p.sections[i].heading));
        assert(g == Some(f));
        assert(trim(p.sections[i].heading) == h) by {
            if f == FindingView::UnknownHeading(h) {
                assert(g == Some(FindingView::UnknownHeading(trim(p.sections[i].heading))) || g == Some(
                    FindingView::HeadingOnWrongType(trim(p.sections[i].heading)),
                ));
            } else {
                assert(g == Some(FindingView::UnknownHeading(trim(p.sections[i].heading))) || g == Some(
                    FindingView::HeadingOnWrongType(trim(p.sections[i].heading)),
                ));
            }
        }
    }
    if exists|k: int|
        0 <= k < p.sections.len() && trim(#[trigger] p.sections[k].heading) == h
            && heading_finding(p.fm.page_type, h) == Some(f) {
        let k = choose|k: int|
            0 <= k < p.sections.len() && trim(#[trigger] p.sections[k].heading) == h
                && heading_finding(p.fm.page_type, h) == Some(f);
        assert(f2(p.sections[k]) == seq![f]);
        assert(f2(p.sections[k])[0] == f);
        assert(f2(p.sections[k]).contains(f));
    }
    let f3 = |l: LinkView|
        if is_page_id(pages, l.target) {
            Seq::<FindingView>::empty()
        } else {
            seq![FindingView::BrokenLink(l.target)]
        };
    assert forall|x: LinkView| !(#[trigger] f3(x)).contains(f) by {
        if f3(x).len() > 0 {
            assert(f3(x)[0] != f);
        }
    }
    lemma_concat_map_avoids(p.links, f3, f);
    let st = status_findings(pages, p);
    assert(!st.contains(f)) by {
        if st.contains(f) {
            let i = choose|i: int| 0 <= i < st.len() && st[i] == f;
        }
    }
    let re = reach_findings(pages, indexed, p);
    assert(!re.contains(f)) by {
        if re.contains(f) {
            let i = choose|i: int| 0 <= i < re.len() && re[i] == f;
        }
    }
    let le = length_findings(p);
    assert(!le.contains(f)) by {
        if le.contains(f) {
            let i = choose|i: int| 0 <= i < le.len() && le[i] == f;
        }
    }
}

proof fn lemma_parts_by_kind(pages: Seq<PageView>, indexed: Option<Seq<Seq<char>>>, p: PageView, y: FindingView)
    ensures
        !(y is MissingSection) ==> !missing_findings(p).contains(y),
        !(y is UnknownHeading || y is HeadingOnWrongType) ==> !heading_findings(p).contains(y),
        !(y is BrokenLink) ==> !broken_findings(pages, p).contains(y),
        title_findings(p).contains(y) <==> (trim(p.title).len() == 0 && y == FindingView::MissingTitle),
        length_findings(p).contains(y) <==> (word_count(p.body) > 300 && y == FindingView::TooLong(
            word_count(p.body),
        )),
        reach_findings(pages, indexed, p).contains(y) <==> ((!has_inbound(pages, p.id) && p.links.len()
            == 0 && y == FindingView::Orphan) || (indexed matches Some(ix) && !ix.contains(p.id) && y
            == FindingView::MissingFromIndex)),
        status_findings(pages, p).contains(y) <==> ((p.fm.page_type == PageType::Attempt && p.fm.status
            == Status::Current && y == FindingView::AttemptIsCurrent) || (p.fm.status
            == Status::Superseded && successor(pages, p.id) is None && y
            == FindingView::SupersededWithoutLink) || (successor(pages, p.id) matches Some(x)
            && p.fm.status == Status::Current && y == FindingView::ContradictedBySuccessor(x))),
{
    let f1 = |x: Seq<char>|
        if section_from(p.sections, x, 0) is Some {
            Seq::<FindingView>::empty()
        } else {
            seq![FindingView::MissingSection(x)]
        };
    if !(y is MissingSection) {
        assert forall|x: Seq<char>| !(#[trigger] f1(x)).contains(y) by {
            if f1(x).len() > 0 {
                assert(f1(x)[0] != y);
            }
        }
        lemma_concat_map_avoids(required_sections(p.fm.page_type), f1, y);
    }
    let f2 = |s: SectionView|
        match heading_finding(p.fm.page_type, trim(s.heading)) {
            Some(f) => seq![f],
            None => Seq::<FindingView>::empty(),
        };
    if !(y is UnknownHeading || y is HeadingOnWrongType) {
        assert forall|x: SectionView| !(#[trigger] f2(x)).contains(y) by {
            if f2(x).len() > 0 {
                assert(f2(x)[0] != y);
            }
        }
        lemma_concat_map_avoids(p.sections, f2, y);
    }
    let f3 = |l: LinkView|
        if is_page_id(pages, l.target) {
            Seq::<FindingView>::empty()
        } else {
            seq![FindingView::BrokenLink(l.target)]
        };
    if !(y is BrokenLink) {
        assert forall|x: LinkView| !(#[trigger] f3(x)).contains(y) by {
            if f3(x).len() > 0 {
                assert(f3(x)[0] != y);
            }
        }
        lemma_concat_map_avoids(p.links, f3, y);
    }
    lemma_when_contains(trim(p.title).len() == 0, FindingView::MissingTitle, y);
    lemma_when_contains(word_count(p.body) > 300, FindingView::TooLong(word_count(p.body)), y);
    let o = when(!has_inbound(pages, p.id) && p.links.len() == 0, FindingView::Orphan);
    lemma_when_contains(!has_inbound(pages, p.id) && p.links.len() == 0, FindingView::Orphan, y);
    let ix_part = match indexed {
        Some(ix) => when(!ix.contains(p.id), FindingView::MissingFromIndex),
        None => Seq::<FindingView>::empty(),
    };
    match indexed {
        Some(ix) => lemma_when_contains(!ix.contains(p.id), FindingView::MissingFromIndex, y),
        None => {},
    }
    lemma_add_contains(o, ix_part, y);
    let t = p.fm.page_type;
    let st = p.fm.status;
    let succ = successor(pages, p.id);
    let a = when(t == PageType::Attempt && st == Status::Current, FindingView::AttemptIsCurrent);
    let b = when(st == Status::Superseded && succ is None, FindingView::SupersededWithoutLink);
    let c = match succ {
        Some(x) => when(st == Status::Current, FindingView::ContradictedBySuccessor(x)),
        None => Seq::<FindingView>::empty(),
    };
    lemma_when_contains(t == PageType::Attempt && st == Status::Current, FindingView::AttemptIsCurrent, y);
    lemma_when_contains(st == Status::Superseded && succ is None, FindingView::SupersededWithoutLink, y);
    match succ {
        Some(x) => lemma_when_contains(st == Status::Current, FindingView::ContradictedBySuccessor(x), y),
        None => {},
    }
    lemma_add_contains(a, b, y);
    lemma_add_contains(a + b, c, y);
}

/// A link is reported broken exactly when its target is no page's id: the
/// report holds `BrokenLink(t)` iff some link of the page targets `t` and no
/// page has the id `t`.
pub proof fn law_broken_link_is_flagged(
    pages: Seq<PageView>,
    indexed: Option<Seq<Seq<char>>>,
    p: PageView,
    t: Seq<char>,
)
    ensures
        page_findings(pages, indexed, p).contains(FindingView::BrokenLink(t)) <==> (exists|k: int|
            0 <= k < p.links.len() && (#[trigger] p.links[k]).target == t) && !is_page_id(pages, t),
{
    let y = FindingView::BrokenLink(t);
    lemma_findings_contain(pages, indexed, p, y);
    lemma_parts_by_kind(pages, indexed, p, y);
    let f3 = |l: LinkView|
        if is_page_id(pages, l.target) {
            Seq::<FindingView>::empty()
        } else {
            seq![FindingView::BrokenLink(l.target)]
        };
    assert(broken_findings(pages, p) == concat_map(p.links, f3));
    lemma_concat_map_contains(p.links, f3, y);
    if broken_findings(pages, p).contains(y) {
        let i = choose|i: int| 0 <= i < p.links.len() && #[trigger] f3(p.links[i]).contains(y);
        let q = choose|q: int| 0 <= q < f3(p.links[i]).len() && #[trigger] f3(p.links[i])[q] == y;
        assert(f3(p.links[i]).len() == 1);
        assert(p.links[i].target == t);
    }
    if (exists|k: int| 0 <= k < p.links.len() && (#[trigger] p.links[k]).target == t) && !is_page_id(
        pages,
        t,
    ) {
        let k = choose|k: int| 0 <= k < p.links.len() && (#[trigger] p.links[k]).target == t;
        assert(f3(p.links[k]) == seq![y]);
        assert(f3(p.links[k])[0] == y);
        assert(f3(p.links[k]).contains(y));
    }
}

/// The findings about status, reach and length come exactly when their rule
/// holds: an attempt marked current; a superseded page naming no successor;
/// a page still current that another page claims to supersede; a page no
/// page links to and that links nowhere; a page `index.md` does not list,
/// when `index.md` could be read; a body over 300 words, with its count.
pub proof fn law_status_reach_and_length_findings(
    pages: Seq<PageView>,
    indexed: Option<Seq<Seq<char>>>,
    p: PageView,
)
    ensures
        page_findings(pages, indexed, p).contains(FindingView::AttemptIsCurrent) <==> (p.fm.page_type
            == PageType::Attempt && p.fm.status == Status::Current),
        page_findings(pages, indexed, p).contains(FindingView::SupersededWithoutLink) <==> (p.fm.status
            == Status::Superseded && successor(pages, p.id) is None),
        forall|x: Seq<char>|
            #[trigger] page_findings(pages, indexed, p).contains(FindingView::ContradictedBySuccessor(x))
                <==> (p.fm.status == Status::Current && successor(pages, p.id) == Some(x)),
        page_findings(pages, indexed, p).contains(FindingView::Orphan) <==> (!has_inbound(pages, p.id)
            && p.links.len() == 0),
        page_findings(pages, indexed, p).contains(FindingView::MissingFromIndex) <==> (
        indexed matches Some(ix) && !ix.contains(p.id)),
        forall|n: nat|
            #[trigger] page_findings(pages, indexed, p).contains(FindingView::TooLong(n)) <==> (
            word_count(p.body) > 300 && n == word_count(p.body)),
{
    lemma_findings_contain(pages, indexed, p, FindingView::AttemptIsCurrent);
    lemma_parts_by_kind(pages, indexed, p, FindingView::AttemptIsCurrent);
    lemma_findings_contain(pages, indexed, p, FindingView::SupersededWithoutLink);
    lemma_parts_by_kind(pages, indexed, p, FindingView::SupersededWithoutLink);
    lemma_findings_contain(pages, indexed, p, FindingView::Orphan);
    lemma_parts_by_kind(pages, indexed, p, FindingView::Orphan);
    lemma_findings_contain(pages, indexed, p, FindingView::MissingFromIndex);
    lemma_parts_by_kind(pages, indexed, p, FindingView::MissingFromIndex);
    assert forall|x: Seq<char>|
        #[trigger] page_findings(pages, indexed, p).contains(FindingView::ContradictedBySuccessor(x))
            <==> (p.fm.status == Status::Current && successor(pages, p.id) == Some(x)) by {
        lemma_findings_contain(pages, indexed, p, FindingView::ContradictedBySuccessor(x));
        lemma_parts_by_kind(pages, indexed, p, FindingView::ContradictedBySuccessor(x));
    }
    assert forall|n: nat|
        #[trigger] page_findings(pages, indexed, p).contains(FindingView::TooLong(n)) <==> (
        word_count(p.body) > 300 && n == word_count(p.body)) by {
        lemma_findings_contain(pages, indexed, p, FindingView::TooLong(n));
        lemma_parts_by_kind(pages, indexed, p, FindingView::TooLong(n));
    }
}

/// No line break in `s`.
pub open spec fn one_line(s: Seq<char>) -> bool {
    forall|i: int| 0 <= i < s.len() ==> #[trigger] s[i] != '\n'
}

proof fn lemma_one_line_add(a: Seq<char>, b: Seq<char>)
    requires
        one_line(a),
        one_line(b),
    ensures
        one_line(a + b),
{
    assert forall|i: int| 0 <= i < (a + b).len() implies #[trigger] (a + b)[i] != '\n' by {
        if i < a.len() {
            assert((a + b)[i] == a[i]);
        } else {
            assert((a + b)[i] == b[i - a.len()]);
        }
    }
}

/// Every finding reads as one line, so a brief can list it as one bullet:
/// its message holds no line break when the heading, page id or link target
/// it quotes holds none.
pub proof fn law_finding_messages_are_one_line(f: FindingView)
    requires
        f matches FindingView::MissingSection(h) ==> one_line(h),
        f matches FindingView::UnknownHeading(h) ==> one_line(h),
        f matches FindingView::HeadingOnWrongType(h) ==> one_line(h),
        f matches FindingView::ContradictedBySuccessor(x) ==> one_line(x),
        f matches FindingView::BrokenLink(t) ==> one_line(t),
    ensures
        one_line(message_spec(f)),
{
    match f {
        FindingView::MissingTitle => {
            reveal_strlit("has no `#` title line stating its claim");
        },
        FindingView::MissingSection(h) => {
            reveal_strlit("missing its `## ");
            reveal_strlit("` section");
            lemma_one_line_add("missing its `## "@, h);
            lemma_one_line_add("missing its `## "@ + h, "` section"@);
        },
        FindingView::UnknownHeading(h) => {
            reveal_strlit("has an off-schema heading `## ");
            reveal_strlit("`");
            lemma_one_line_add("has an off-schema heading `## "@, h);
            lemma_one_line_add("has an off-schema heading `## "@ + h, "`"@);
        },
        FindingView::HeadingOnWrongType(h) => {
            reveal_strlit("carries `## ");
            reveal_strlit("`, which does not belong on this page type");
            lemma_one_line_add("carries `## "@, h);
            lemma_one_line_add("carries `## "@ + h, "`, which does not belong on this page type"@);
        },
        FindingView::AttemptIsCurrent => {
            reveal_strlit("is an attempt marked `current`; an attempt is always closed");
        },
        FindingView::SupersededWithoutLink => {
            reveal_strlit("is superseded but does not link to what replaced it");
        },
        FindingView::ContradictedBySuccessor(x) => {
            reveal_strlit("still reads `current`, but ");
            reveal_strlit(" says it supersedes this");
            lemma_one_line_add("still reads `current`, but "@, x);
            lemma_one_line_add("still reads `current`, but "@ + x, " says it supersedes this"@);
        },
        FindingView::Orphan => {
            reveal_strlit("is linked from nowhere and links nowhere");
        },
        FindingView::MissingFromIndex => {
            reveal_strlit("is not listed in index.md");
        },
        FindingView::TooLong(n) => {
            reveal_strlit("is ");
            reveal_strlit(" words, over the 300-word limit");
            crate::strings::lemma_decimal_digits(n);
            assert(one_line(decimal(n))) by {
                assert forall|i: int| 0 <= i < decimal(n).len() implies #[trigger] decimal(n)[i] != '\n' by {
                    assert(48 <= decimal(n)[i] as u32 <= 57);
                }
            }
            lemma_one_line_add("is "@, decimal(n));
            lemma_one_line_add("is "@ + decimal(n), " words, over the 300-word limit"@);
        },
        FindingView::BrokenLink(t) => {
            reveal_strlit("links to [[");
            reveal_strlit("]], which does not exist");
            lemma_one_line_add("links to [["@, t);
            lemma_one_line_add("links to [["@ + t, "]], which does not exist"@);
        },
    }
}

/// The schema's sections, per page type, are exactly the ones a page must
/// carry: a project's Goal, Current state and Next step; a decision's
/// Decision, Why and Rejected; an open question's The question, Options and
/// What it blocks; an attempt's What was tried, Why it failed and What it
/// cost; a component's What it does, Gotchas and Related files; a
/// constraint's The constraint, The symptom and The fix. Each is reported
/// missing exactly when no section's trimmed heading matches it up to ASCII
/// case, and a section headed by one of them draws no heading finding.
pub proof fn law_the_schema_sections_are_required(
    pages: Seq<PageView>,
    indexed: Option<Seq<Seq<char>>>,
    p: PageView,
    w: Seq<char>,
)
    requires
        (p.fm.page_type == PageType::Project && (w == "Goal"@ || w == "Current state"@ || w == "Next step"@))
        || (p.fm.page_type == PageType::Decision && (w == "Decision"@ || w == "Why"@ || w == "Rejected"@))
        || (p.fm.page_type == PageType::Open && (w == "The question"@ || w == "Options"@ || w == "What it blocks"@))
        || (p.fm.page_type == PageType::Attempt && (w == "What was tried"@ || w == "Why it failed"@ || w == "What it cost"@))
        || (p.fm.page_type == PageType::Component && (w == "What it does"@ || w == "Gotchas"@ || w == "Related files"@))
        || (p.fm.page_type == PageType::Gotcha && (w == "The constraint"@ || w == "The symptom"@ || w == "The fix"@)),
    ensures
        page_findings(pages, indexed, p).contains(FindingView::MissingSection(w)) <==> forall|k: int|
            0 <= k < p.sections.len() ==> !eq_ignore_case(trim(#[trigger] p.sections[k].heading), w),
        forall|k: int|
            0 <= k < p.sections.len() && eq_ignore_case(trim(#[trigger] p.sections[k].heading), w)
                ==> !page_findings(pages, indexed, p).contains(
                FindingView::UnknownHeading(trim(p.sections[k].heading)),
            ) && !page_findings(pages, indexed, p).contains(
                FindingView::HeadingOnWrongType(trim(p.sections[k].heading)),
            ),
{
    reveal_strlit("Goal");
    reveal_strlit("Current state");
    reveal_strlit("Next step");
    reveal_strlit("Decision");
    reveal_strlit("Why");
    reveal_strlit("Rejected");
    reveal_strlit("The question");
    reveal_strlit("Options");
    reveal_strlit("What it blocks");
    reveal_strlit("What was tried");
    reveal_strlit("Why it failed");
    reveal_strlit("What it cost");
    reveal_strlit("What it does");
    reveal_strlit("Gotchas");
    reveal_strlit("Related files");
    reveal_strlit("The constraint");
    reveal_strlit("The symptom");
    reveal_strlit("The fix");
    let req = required_sections(p.fm.page_type);
    assert(req.contains(w)) by {
        if req[0] == w {
            assert(req[0] == w);
        } else if req[1] == w {
            assert(req[1] == w);
        } else {
            assert(req[2] == w);
        }
    }
    law_missing_section_is_flagged(pages, indexed, p, w);
    assert forall|k: int|
        0 <= k < p.sections.len() && eq_ignore_case(trim(#[trigger] p.sections[k].heading), w) implies !page_findings(pages, indexed, p).contains(
            FindingView::UnknownHeading(trim(p.sections[k].heading)),
        ) && !page_findings(pages, indexed, p).contains(
            FindingView::HeadingOnWrongType(trim(p.sections[k].heading)),
        ) by {
        let h = trim(p.sections[k].heading);
        let i = choose|i: int| 0 <= i < req.len() && req[i] == w;
        assert(eq_ignore_case(req[i], h));
        assert(any_ci(req, h));
        assert(heading_finding(p.fm.page_type, h) is None);
        law_heading_findings_follow_the_schema(pages, indexed, p, h, FindingView::UnknownHeading(h));
        law_heading_findings_follow_the_schema(pages, indexed, p, h, FindingView::HeadingOnWrongType(h));
    }
}

/// No section beyond the schema's is ever reported missing: a page is only
/// asked for its own type's three sections.
pub proof fn law_only_schema_sections_are_asked_for(
    pages: Seq<PageView>,
    indexed: Option<Seq<Seq<char>>>,
    p: PageView,
    x: Seq<char>,
)
    requires
        page_findings(pages, indexed, p).contains(FindingView::MissingSection(x)),
    ensures
        (p.fm.page_type == PageType::Project && (x == "Goal"@ || x == "Current state"@ || x == "Next step"@))
        || (p.fm.page_type == PageType::Decision && (x == "Decision"@ || x == "Why"@ || x == "Rejected"@))
        || (p.fm.page_type == PageType::Open && (x == "The question"@ || x == "Options"@ || x == "What it blocks"@))
        || (p.fm.page_type == PageType::Attempt && (x == "What was tried"@ || x == "Why it failed"@ || x == "What it cost"@))
        || (p.fm.page_type == PageType::Component && (x == "What it does"@ || x == "Gotchas"@ || x == "Related files"@))
        || (p.fm.page_type == PageType::Gotcha && (x == "The constraint"@ || x == "The symptom"@ || x == "The fix"@)),
{
    reveal_strlit("Goal");
    reveal_strlit("Current state");
    reveal_strlit("Next step");
    reveal_strlit("Decision");
    reveal_strlit("Why");
    reveal_strlit("Rejected");
    reveal_strlit("The question");
    reveal_strlit("Options");
    reveal_strlit("What it blocks");
    reveal_strlit("What was tried");
    reveal_strlit("Why it failed");
    reveal_strlit("What it cost");
    reveal_strlit("What it does");
    reveal_strlit("Gotchas");
    reveal_strlit("Related files");
    reveal_strlit("The constraint");
    reveal_strlit("The symptom");
    reveal_strlit("The fix");
    law_missing_section_is_flagged(pages, indexed, p, x);
    let req = required_sections(p.fm.page_type);
    let i = choose|i: int| 0 <= i < req.len() && req[i] == x;
    assert(i == 0 || i == 1 || i == 2);
}

} // verus!
