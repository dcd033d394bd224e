//! The `Context` domain type and its markdown rendering.

use vstd::prelude::*;
use crate::frontmatter::vv_view;
use crate::strings::{
    concat_map, contains_seq, lemma_concat_map_piece, lemma_concat_map_step, lemma_contains_left,
    lemma_contains_right, lemma_contains_self, lemma_contains_trans,
};
use crate::text::{chars_of, push_span, slice_vec, trim, trim_span};

verus! {

/// What a context says, every part optional. A missing field in a stored
/// record reads as empty rather than failing.
#[derive(Debug, Clone)]
pub struct ContextBody {
    pub description: Option<String>,
    pub goal: Option<String>,
    pub current_state: Option<String>,
    pub decisions: Vec<String>,
    pub tried: Vec<String>,
    pub relevant_files: Vec<String>,
    pub constraints: Vec<String>,
    pub open_issues: Vec<String>,
    pub next_steps: Vec<String>,
}

impl Default for ContextBody {
    fn default() -> (r: ContextBody)
        ensures
            r.description is None,
            r.goal is None,
            r.current_state is None,
            r.decisions@.len() == 0,
            r.tried@.len() == 0,
            r.relevant_files@.len() == 0,
            r.constraints@.len() == 0,
            r.open_issues@.len() == 0,
            r.next_steps@.len() == 0,
    {
        ContextBody {
            description: None,
            goal: None,
            current_state: None,
            decisions: Vec::new(),
            tried: Vec::new(),
            relevant_files: Vec::new(),
            constraints: Vec::new(),
            open_issues: Vec::new(),
            next_steps: Vec::new(),
        }
    }
}

#[derive(Debug, Clone)]
pub struct Context {
    pub id: String,
    pub name: String,
    pub body: ContextBody,
    pub created_at: String,
    pub updated_at: String,
}

#[derive(Debug, Clone)]
pub struct ContextSummary {
    pub id: String,
    pub name: String,
    pub updated_at: String,
}

/// A `## heading` paragraph, or nothing when the value is absent or blank.
pub open spec fn para_spec(heading: Seq<char>, value: Option<Seq<char>>) -> Seq<char> {
    match value {
        Some(t) => if trim(t).len() > 0 {
            "\n## "@ + heading + "\n"@ + trim(t) + "\n"@
        } else {
            seq![]
        },
        None => seq![],
    }
}

/// The items of a list, trimmed, without the blank ones.
pub open spec fn kept_items(items: Seq<Seq<char>>) -> Seq<Seq<char>> {
    concat_map(
        items,
        |s: Seq<char>|
            if trim(s).len() > 0 {
                seq![trim(s)]
            } else {
                Seq::<Seq<char>>::empty()
            },
    )
}

/// A `## heading` list, or nothing when no item has text.
pub open spec fn list_spec(heading: Seq<char>, items: Seq<Seq<char>>) -> Seq<char> {
    let kept = kept_items(items);
    if kept.len() == 0 {
        seq![]
    } else {
        "\n## "@ + heading + "\n"@ + concat_map(kept, |t: Seq<char>| "- "@ + t + "\n"@)
    }
}

pub open spec fn markdown_spec(c: Context) -> Seq<char> {
    let b = c.body;
    "# "@ + trim(c.name@) + "\n"@ + para_spec("Goal"@, b.goal.deep_view()) + para_spec(
        "Current State"@,
        b.current_state.deep_view(),
    ) + list_spec("Decisions"@, b.decisions.deep_view()) + list_spec(
        "Things Tried"@,
        b.tried.deep_view(),
    ) + list_spec("Constraints"@, b.constraints.deep_view()) + list_spec(
        "Relevant Files"@,
        b.relevant_files.deep_view(),
    ) + list_spec("Open Issues"@, b.open_issues.deep_view()) + list_spec(
        "Next Steps"@,
        b.next_steps.deep_view(),
    )
}

fn trimmed(s: &String) -> (r: Vec<char>)
    ensures
        r@ == trim(s@),
{
    let v = chars_of(s.as_str());
    let (a, b) = trim_span(&v, 0, v.len());
    assert(v@.subrange(0, v@.len() as int) =~= v@);
    slice_vec(&v, a, b)
}

fn push_para(out: &mut String, heading: &str, value: &Option<String>)
    ensures
        final(out)@ == old(out)@ + para_spec(heading@, value.deep_view()),
{
    match value {
        Some(t) => {
            let v = trimmed(t);
            if v.len() > 0 {
                out.append("\n## ");
                out.append(heading);
                out.append("\n");
                push_span(out, &v, 0, v.len());
                out.append("\n");
                assert(v@.subrange(0, v@.len() as int) =~= v@);
            }
        },
        None => {},
    }
}

fn push_list(out: &mut String, heading: &str, items: &Vec<String>)
    ensures
        final(out)@ == old(out)@ + list_spec(heading@, items.deep_view()),
{
    let ghost iv = items.deep_view();
    let ghost f = |s: Seq<char>|
        if trim(s).len() > 0 {
            seq![trim(s)]
        } else {
            Seq::<Seq<char>>::empty()
        };
    let mut kept: Vec<Vec<char>> = Vec::new();
    assert(iv.take(0) =~= Seq::<Seq<char>>::empty());
    assert(vv_view(kept@) =~= Seq::<Seq<char>>::empty());
    let mut k: usize = 0;
    while k < items.len()
        invariant
            k <= items@.len(),
            iv == items.deep_view(),
            f == (|s: Seq<char>|
                if trim(s).len() > 0 {
                    seq![trim(s)]
                } else {
                    Seq::<Seq<char>>::empty()
                }),
            vv_view(kept@) == concat_map(iv.take(k as int), f),
        decreases items.len() - k,
    {
        proof {
            lemma_concat_map_step(iv, k as int, f);
        }
        assert(iv[k as int] == items@[k as int]@);
        let v = trimmed(&items[k]);
        let ghost before = vv_view(kept@);
        let ghost vv = v@;
        if v.len() > 0 {
            kept.push(v);
            assert(vv_view(kept@) =~= before.push(vv));
            assert(f(iv[k as int]) == seq![vv]);
            assert(before + seq![vv] =~= before.push(vv));
        } else {
            assert(f(iv[k as int]) == Seq::<Seq<char>>::empty());
            assert(before + Seq::<Seq<char>>::empty() =~= before);
        }
        assert(vv_view(kept@) =~= concat_map(iv.take(k + 1), f));
        k += 1;
    }
    assert(iv.take(iv.len() as int) =~= iv);
    if kept.len() == 0 {
        return;
    }
    let ghost kv = vv_view(kept@);
    let ghost g = |t: Seq<char>| "- "@ + t + "\n"@;
    out.append("\n## ");
    out.append(heading);
    out.append("\n");
    let ghost o = out@;
    assert(kv.take(0) =~= Seq::<Seq<char>>::empty());
    let mut j: usize = 0;
    while j < kept.len()
        invariant
            j <= kept@.len(),
            kv == vv_view(kept@),
            g == (|t: Seq<char>| "- "@ + t + "\n"@),
            out@ == o + concat_map(kv.take(j as int), g),
        decreases kept.len() - j,
    {
        proof {
            lemma_concat_map_step(kv, j as int, g);
        }
        assert(kv[j as int] == kept@[j as int]@);
        out.append("- ");
        push_span(out, &kept[j], 0, kept[j].len());
        assert(kept@[j as int]@.subrange(0, kept@[j as int]@.len() as int) =~= kept@[j as int]@);
        out.append("\n");
        assert(out@ =~= o + concat_map(kv.take(j + 1), g));
        j += 1;
    }
    assert(kv.take(kv.len() as int) =~= kv);
}

impl Context {
    /// The context as a markdown document: only the populated sections, each
    /// value trimmed.
    pub fn to_markdown(&self) -> (r: String)
        ensures
            r@ == markdown_spec(*self),
    {
        let mut out = String::new();
        out.append("# ");
        let name = trimmed(&self.name);
        push_span(&mut out, &name, 0, name.len());
        assert(name@.subrange(0, name@.len() as int) =~= name@);
        out.append("\n");
        let b = &self.body;
        push_para(&mut out, "Goal", &b.goal);
        push_para(&mut out, "Current State", &b.current_state);
        push_list(&mut out, "Decisions", &b.decisions);
        push_list(&mut out, "Things Tried", &b.tried);
        push_list(&mut out, "Constraints", &b.constraints);
        push_list(&mut out, "Relevant Files", &b.relevant_files);
        push_list(&mut out, "Open Issues", &b.open_issues);
        push_list(&mut out, "Next Steps", &b.next_steps);
        out
    }
}

proof fn lemma_kept_has(items: Seq<Seq<char>>, k: int)
    requires
        0 <= k < items.len(),
        trim(items[k]).len() > 0,
    ensures
        exists|m: int| 0 <= m < kept_items(items).len() && #[trigger] kept_items(items)[m] == trim(items[k]),
    decreases items.len(),
{
    let g = |s: Seq<char>|
        if trim(s).len() > 0 {
            seq![trim(s)]
        } else {
            Seq::<Seq<char>>::empty()
        };
    let d = items.drop_last();
    assert(kept_items(items) == concat_map(d, g) + g(items.last()));
    if k == items.len() - 1 {
        let m = concat_map(d, g).len() as int;
        assert(kept_items(items)[m] == trim(items[k]));
    } else {
        lemma_kept_has(d, k);
        assert(d[k] == items[k]);
        assert(kept_items(d) == concat_map(d, g));
        let m = choose|m: int| 0 <= m < kept_items(d).len() && #[trigger] kept_items(d)[m] == trim(d[k]);
        assert(kept_items(items)[m] == trim(items[k]));
    }
}

proof fn lemma_list_shows(heading: Seq<char>, items: Seq<Seq<char>>, k: int)
    requires
        0 <= k < items.len(),
        trim(items[k]).len() > 0,
    ensures
        contains_seq(list_spec(heading, items), "\n## "@ + heading + "\n"@),
        contains_seq(list_spec(heading, items), "- "@ + trim(items[k]) + "\n"@),
{
    lemma_kept_has(items, k);
    let kept = kept_items(items);
    let m = choose|m: int| 0 <= m < kept.len() && #[trigger] kept[m] == trim(items[k]);
    let f = |t: Seq<char>| "- "@ + t + "\n"@;
    let head = "\n## "@ + heading + "\n"@;
    assert(list_spec(heading, items) == head + concat_map(kept, f));
    lemma_contains_self(head);
    lemma_contains_left(head, concat_map(kept, f), head);
    lemma_concat_map_piece(kept, f, m);
    lemma_contains_right(head, concat_map(kept, f), f(kept[m]));
}


proof fn lemma_md_parts(c: Context)
    ensures
        markdown_spec(c).len() >= 2 + trim(c.name@).len() + 1,
        markdown_spec(c).subrange(0, (2 + trim(c.name@).len() + 1) as int) == "# "@ + trim(c.name@) + "\n"@,
        contains_seq(markdown_spec(c), para_spec("Goal"@, c.body.goal.deep_view())),
        contains_seq(markdown_spec(c), para_spec("Current State"@, c.body.current_state.deep_view())),
        contains_seq(markdown_spec(c), list_spec("Decisions"@, c.body.decisions.deep_view())),
        contains_seq(markdown_spec(c), list_spec("Things Tried"@, c.body.tried.deep_view())),
        contains_seq(markdown_spec(c), list_spec("Constraints"@, c.body.constraints.deep_view())),
        contains_seq(markdown_spec(c), list_spec("Relevant Files"@, c.body.relevant_files.deep_view())),
        contains_seq(markdown_spec(c), list_spec("Open Issues"@, c.body.open_issues.deep_view())),
        contains_seq(markdown_spec(c), list_spec("Next Steps"@, c.body.next_steps.deep_view())),
{
    let b = c.body;
    let p0 = "# "@ + trim(c.name@) + "\n"@;
    let p1 = para_spec("Goal"@, b.goal.deep_view());
    let p2 = para_spec("Current State"@, b.current_state.deep_view());
    let l1 = list_spec("Decisions"@, b.decisions.deep_view());
    let l2 = list_spec("Things Tried"@, b.tried.deep_view());
    let l3 = list_spec("Constraints"@, b.constraints.deep_view());
    let l4 = list_spec("Relevant Files"@, b.relevant_files.deep_view());
    let l5 = list_spec("Open Issues"@, b.open_issues.deep_view());
    let l6 = list_spec("Next Steps"@, b.next_steps.deep_view());
    let md = markdown_spec(c);
    reveal_strlit("# ");
    reveal_strlit("\n");
    let a1 = p0 + p1;
    let a2 = a1 + p2;
    let a3 = a2 + l1;
    let a4 = a3 + l2;
    let a5 = a4 + l3;
    let a6 = a5 + l4;
    let a7 = a6 + l5;
    assert(md == a7 + l6);
    assert(md.subrange(0, p0.len() as int) =~= p0) by {
        assert(md =~= p0 + (p1 + p2 + l1 + l2 + l3 + l4 + l5 + l6));
    }
    lemma_in_prefix(a7, l6);
    lemma_in_prefix(a6, l5);
    lemma_in_prefix(a5, l4);
    lemma_in_prefix(a4, l3);
    lemma_in_prefix(a3, l2);
    lemma_in_prefix(a2, l1);
    lemma_in_prefix(a1, p2);
    lemma_in_prefix(p0, p1);
    lemma_contains_self(a7);
    lemma_contains_left(a7, l6, a7);
    lemma_contains_trans(md, a7, a6);
    lemma_contains_trans(md, a6, a5);
    lemma_contains_trans(md, a5, a4);
    lemma_contains_trans(md, a4, a3);
    lemma_contains_trans(md, a3, a2);
    lemma_contains_trans(md, a2, a1);
    lemma_contains_trans(md, a7, l5);
    lemma_contains_trans(md, a6, l4);
    lemma_contains_trans(md, a5, l3);
    lemma_contains_trans(md, a4, l2);
    lemma_contains_trans(md, a3, l1);
    lemma_contains_trans(md, a2, p2);
    lemma_contains_trans(md, a1, p1);
}

/// `a + b` holds `a` and `b`.
proof fn lemma_in_prefix(a: Seq<char>, b: Seq<char>)
    ensures
        contains_seq(a + b, a),
        contains_seq(a + b, b),
{
    lemma_contains_self(a);
    lemma_contains_self(b);
    lemma_contains_left(a, b, a);
    lemma_contains_right(a, b, b);
}

proof fn lemma_list_law(md: Seq<char>, heading: Seq<char>, full: Seq<char>, items: Seq<Seq<char>>)
    requires
        contains_seq(md, list_spec(heading, items)),
        full == "\n## "@ + heading + "\n"@,
    ensures
        forall|k: int|
            0 <= k < items.len() && trim(#[trigger] items[k]).len() > 0 ==> contains_seq(md, full)
                && contains_seq(md, "- "@ + trim(items[k]) + "\n"@),
{
    assert forall|k: int| 0 <= k < items.len() && trim(#[trigger] items[k]).len() > 0 implies contains_seq(md, full)
        && contains_seq(md, "- "@ + trim(items[k]) + "\n"@) by {
        lemma_field_shown(md, heading, items, k);
    }
}

proof fn lemma_field_shown(md: Seq<char>, heading: Seq<char>, items: Seq<Seq<char>>, k: int)
    requires
        contains_seq(md, list_spec(heading, items)),
        0 <= k < items.len(),
        trim(items[k]).len() > 0,
    ensures
        contains_seq(md, "\n## "@ + heading + "\n"@),
        contains_seq(md, "- "@ + trim(items[k]) + "\n"@),
{
    lemma_list_shows(heading, items, k);
    lemma_contains_trans(md, list_spec(heading, items), "\n## "@ + heading + "\n"@);
    lemma_contains_trans(md, list_spec(heading, items), "- "@ + trim(items[k]) + "\n"@);
}

proof fn lemma_decisions_shown(c: Context)
    ensures
        forall|k: int|
            0 <= k < c.body.decisions.deep_view().len() && trim(#[trigger] c.body.decisions.deep_view()[k]).len() > 0
                ==> contains_seq(markdown_spec(c), "\n## Decisions\n"@) && contains_seq(
                markdown_spec(c),
                "- "@ + trim(c.body.decisions.deep_view()[k]) + "\n"@,
            ),
{
    lemma_md_parts(c);
    reveal_strlit("\n## ");
    reveal_strlit("\n");
    reveal_strlit("Decisions");
    reveal_strlit("\n## Decisions\n");
    assert("\n## "@ + "Decisions"@ + "\n"@ =~= "\n## Decisions\n"@);
    lemma_list_law(markdown_spec(c), "Decisions"@, "\n## Decisions\n"@, c.body.decisions.deep_view());
}

proof fn lemma_tried_shown(c: Context)
    ensures
        forall|k: int|
            0 <= k < c.body.tried.deep_view().len() && trim(#[trigger] c.body.tried.deep_view()[k]).len() > 0
                ==> contains_seq(markdown_spec(c), "\n## Things Tried\n"@) && contains_seq(
                markdown_spec(c),
                "- "@ + trim(c.body.tried.deep_view()[k]) + "\n"@,
            ),
{
    lemma_md_parts(c);
    reveal_strlit("\n## ");
    reveal_strlit("\n");
    reveal_strlit("Things Tried");
    reveal_strlit("\n## Things Tried\n");
    assert("\n## "@ + "Things Tried"@ + "\n"@ =~= "\n## Things Tried\n"@);
    lemma_list_law(markdown_spec(c), "Things Tried"@, "\n## Things Tried\n"@, c.body.tried.deep_view());
}

proof fn lemma_constraints_shown(c: Context)
    ensures
        forall|k: int|
            0 <= k < c.body.constraints.deep_view().len() && trim(#[trigger] c.body.constraints.deep_view()[k]).len() > 0
                ==> contains_seq(markdown_spec(c), "\n## Constraints\n"@) && contains_seq(
                markdown_spec(c),
                "- "@ + trim(c.body.constraints.deep_view()[k]) + "\n"@,
            ),
{
    lemma_md_parts(c);
    reveal_strlit("\n## ");
    reveal_strlit("\n");
    reveal_strlit("Constraints");
    reveal_strlit("\n## Constraints\n");
    assert("\n## "@ + "Constraints"@ + "\n"@ =~= "\n## Constraints\n"@);
    lemma_list_law(markdown_spec(c), "Constraints"@, "\n## Constraints\n"@, c.body.constraints.deep_view());
}

proof fn lemma_relevant_files_shown(c: Context)
    ensures
        forall|k: int|
            0 <= k < c.body.relevant_files.deep_view().len() && trim(#[trigger] c.body.relevant_files.deep_view()[k]).len() > 0
                ==> contains_seq(markdown_spec(c), "\n## Relevant Files\n"@) && contains_seq(
                markdown_spec(c),
                "- "@ + trim(c.body.relevant_files.deep_view()[k]) + "\n"@,
            ),
{
    lemma_md_parts(c);
    reveal_strlit("\n## ");
    reveal_strlit("\n");
    reveal_strlit("Relevant Files");
    reveal_strlit("\n## Relevant Files\n");
    assert("\n## "@ + "Relevant Files"@ + "\n"@ =~= "\n## Relevant Files\n"@);
    lemma_list_law(markdown_spec(c), "Relevant Files"@, "\n## Relevant Files\n"@, c.body.relevant_files.deep_view());
}

proof fn lemma_open_issues_shown(c: Context)
    ensures
        forall|k: int|
            0 <= k < c.body.open_issues.deep_view().len() && trim(#[trigger] c.body.open_issues.deep_view()[k]).len() > 0
                ==> contains_seq(markdown_spec(c), "\n## Open Issues\n"@) && contains_seq(
                markdown_spec(c),
                "- "@ + trim(c.body.open_issues.deep_view()[k]) + "\n"@,
            ),
{
    lemma_md_parts(c);
    reveal_strlit("\n## ");
    reveal_strlit("\n");
    reveal_strlit("Open Issues");
    reveal_strlit("\n## Open Issues\n");
    assert("\n## "@ + "Open Issues"@ + "\n"@ =~= "\n## Open Issues\n"@);
    lemma_list_law(markdown_spec(c), "Open Issues"@, "\n## Open Issues\n"@, c.body.open_issues.deep_view());
}

proof fn lemma_next_steps_shown(c: Context)
    ensures
        forall|k: int|
            0 <= k < c.body.next_steps.deep_view().len() && trim(#[trigger] c.body.next_steps.deep_view()[k]).len() > 0
                ==> contains_seq(markdown_spec(c), "\n## Next Steps\n"@) && contains_seq(
                markdown_spec(c),
                "- "@ + trim(c.body.next_steps.deep_view()[k]) + "\n"@,
            ),
{
    lemma_md_parts(c);
    reveal_strlit("\n## ");
    reveal_strlit("\n");
    reveal_strlit("Next Steps");
    reveal_strlit("\n## Next Steps\n");
    assert("\n## "@ + "Next Steps"@ + "\n"@ =~= "\n## Next Steps\n"@);
    lemma_list_law(markdown_spec(c), "Next Steps"@, "\n## Next Steps\n"@, c.body.next_steps.deep_view());
}

proof fn lemma_para_law(md: Seq<char>, heading: Seq<char>, full: Seq<char>, value: Option<Seq<char>>)
    requires
        contains_seq(md, para_spec(heading, value)),
        full == "\n## "@ + heading + "\n"@,
    ensures
        value matches Some(t) ==> (trim(t).len() > 0 ==> contains_seq(md, full + trim(t) + "\n"@)),
{
    match value {
        Some(t) => {
            if trim(t).len() > 0 {
                assert(para_spec(heading, value) =~= full + trim(t) + "\n"@);
            }
        },
        None => {},
    }
}

proof fn lemma_paragraphs_shown(c: Context)
    ensures
        c.body.goal matches Some(g) ==> (trim(g@).len() > 0 ==> contains_seq(
            markdown_spec(c),
            "\n## Goal\n"@ + trim(g@) + "\n"@,
        )),
        c.body.current_state matches Some(g) ==> (trim(g@).len() > 0 ==> contains_seq(
            markdown_spec(c),
            "\n## Current State\n"@ + trim(g@) + "\n"@,
        )),
{
    lemma_md_parts(c);
    reveal_strlit("\n## ");
    reveal_strlit("\n");
    reveal_strlit("Goal");
    reveal_strlit("Current State");
    reveal_strlit("\n## Goal\n");
    reveal_strlit("\n## Current State\n");
    assert("\n## "@ + "Goal"@ + "\n"@ =~= "\n## Goal\n"@);
    assert("\n## "@ + "Current State"@ + "\n"@ =~= "\n## Current State\n"@);
    lemma_para_law(markdown_spec(c), "Goal"@, "\n## Goal\n"@, c.body.goal.deep_view());
    lemma_para_law(
        markdown_spec(c),
        "Current State"@,
        "\n## Current State\n"@,
        c.body.current_state.deep_view(),
    );
}

/// Every populated field of a context reaches its markdown: for each of
/// decisions, things tried, constraints, relevant files, open issues and next
/// steps, each item with text appears trimmed as a `- ` line, and the list's
/// `## ` heading appears; the goal and current state appear trimmed under
/// theirs, and the name heads the document.
pub proof fn law_every_populated_field_is_rendered(c: Context)
    ensures
        markdown_spec(c).len() >= 2 + trim(c.name@).len() + 1,
        markdown_spec(c).subrange(0, (2 + trim(c.name@).len() + 1) as int) == "# "@ + trim(c.name@) + "\n"@,
        c.body.goal matches Some(g) ==> (trim(g@).len() > 0 ==> contains_seq(
            markdown_spec(c),
            "\n## Goal\n"@ + trim(g@) + "\n"@,
        )),
        c.body.current_state matches Some(g) ==> (trim(g@).len() > 0 ==> contains_seq(
            markdown_spec(c),
            "\n## Current State\n"@ + trim(g@) + "\n"@,
        )),
        forall|k: int|
            0 <= k < c.body.decisions.deep_view().len() && trim(#[trigger] c.body.decisions.deep_view()[k]).len() > 0
                ==> contains_seq(markdown_spec(c), "\n## Decisions\n"@) && contains_seq(
                markdown_spec(c),
                "- "@ + trim(c.body.decisions.deep_view()[k]) + "\n"@,
            ),
        forall|k: int|
            0 <= k < c.body.tried.deep_view().len() && trim(#[trigger] c.body.tried.deep_view()[k]).len() > 0
                ==> contains_seq(markdown_spec(c), "\n## Things Tried\n"@) && contains_seq(
                markdown_spec(c),
                "- "@ + trim(c.body.tried.deep_view()[k]) + "\n"@,
            ),
        forall|k: int|
            0 <= k < c.body.constraints.deep_view().len() && trim(#[trigger] c.body.constraints.deep_view()[k]).len() > 0
                ==> contains_seq(markdown_spec(c), "\n## Constraints\n"@) && contains_seq(
                markdown_spec(c),
                "- "@ + trim(c.body.constraints.deep_view()[k]) + "\n"@,
            ),
        forall|k: int|
            0 <= k < c.body.relevant_files.deep_view().len() && trim(#[trigger] c.body.relevant_files.deep_view()[k]).len() > 0
                ==> contains_seq(markdown_spec(c), "\n## Relevant Files\n"@) && contains_seq(
                markdown_spec(c),
                "- "@ + trim(c.body.relevant_files.deep_view()[k]) + "\n"@,
            ),
        forall|k: int|
            0 <= k < c.body.open_issues.deep_view().len() && trim(#[trigger] c.body.open_issues.deep_view()[k]).len() > 0
                ==> contains_seq(markdown_spec(c), "\n## Open Issues\n"@) && contains_seq(
                markdown_spec(c),
                "- "@ + trim(c.body.open_issues.deep_view()[k]) + "\n"@,
            ),
        forall|k: int|
            0 <= k < c.body.next_steps.deep_view().len() && trim(#[trigger] c.body.next_steps.deep_view()[k]).len() > 0
                ==> contains_seq(markdown_spec(c), "\n## Next Steps\n"@) && contains_seq(
                markdown_spec(c),
                "- "@ + trim(c.body.next_steps.deep_view()[k]) + "\n"@,
            ),
{
    lemma_md_parts(c);
    lemma_paragraphs_shown(c);
    lemma_decisions_shown(c);
    lemma_tried_shown(c);
    lemma_constraints_shown(c);
    lemma_relevant_files_shown(c);
    lemma_open_issues_shown(c);
    lemma_next_steps_shown(c);
}

} // verus!
