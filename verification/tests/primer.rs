use baton::date::Date;
use baton::frontmatter::PageType;
use baton::lint::{Finding, Report};
use baton::primer::{assemble, body_without_title, estimate_tokens, most_recent_project};
use baton::wiki::{parse, Page};

fn today() -> Date {
    Date::from_ymd_opt(2026, 8, 23).unwrap()
}

fn page(id: &str, kind: &str, project: &str, status: &str, body: &str) -> Page {
    let project = if project.is_empty() { "null" } else { project };
    let text = format!(
        "---\ntype: {kind}\nproject: {project}\nstatus: {status}\n\
         updated: 2026-08-22\nsources: [7123f71b]\n---\n\n{body}"
    );
    parse("/w", &format!("/w/{id}.md"), &text).unwrap()
}

fn corpus() -> Vec<Page> {
    vec![
        page(
            "projects/baton/overview",
            "project",
            "baton",
            "current",
            "# Baton\n\n## Goal\n\nA launcher for context.\n\n\
             ## Current state\n\nThe index works.\n\n\
             ## Next step\n\nPoint the browser at pages. See [[concepts/mutex-across-await]].\n",
        ),
        page(
            "projects/baton/decisions/files-are-truth",
            "decision",
            "baton",
            "current",
            "# Markdown files are the source of truth\n\n\
             ## Decision\n\nThe wiki is plain markdown in ~/Baton.\n\n## Why\n\nGit.\n\n## Rejected\n\nSQLite as truth.\n",
        ),
        page(
            "projects/baton/decisions/json-not-markdown",
            "decision",
            "baton",
            "superseded",
            "# The content column holds JSON\n\n## Decision\n\nStore JSON.\n\n## Why\n\nStructure.\n\n## Rejected\n\nMarkdown.\n",
        ),
        page(
            "projects/baton/open/browser-conversations",
            "open",
            "baton",
            "current",
            "# Browser conversations\n\n## The question\n\nHow does a browser chat reach the wiki?\n\n\
             ## Options\n\nPaste it.\n\n## What it blocks\n\nPhase 4.\n",
        ),
        page(
            "projects/baton/attempts/hosted-proxy",
            "attempt",
            "baton",
            "superseded",
            "# Hosted proxy\n\n## What was tried\n\nA Worker holding the key.\n\n\
             ## Why it failed\n\nEvery conversation would transit our infrastructure.\n\n## What it cost\n\nA day.\n",
        ),
        page(
            "concepts/mutex-across-await",
            "gotcha",
            "",
            "current",
            "# Never hold a std Mutex across an await\n\n\
             ## The constraint\n\n**A guard held across an `.await`** keeps the lock for the whole future.\n\n\
             ## The symptom\n\nThe UI stalls.\n\n## The fix\n\nDrop the guard first.\n",
        ),
    ]
}

#[test]
fn the_brief_leads_with_the_project_page_then_the_decisions() {
    let p = assemble(&corpus(), "baton", 10_000, today(), &Default::default());

    let goal = p.text.find("## Goal").expect("the goal must be carried");
    let decisions = p.text.find("## Decisions already taken").unwrap();
    let open = p.text.find("## Open questions").unwrap();
    let attempts = p.text.find("## Routes already tried").unwrap();
    assert!(goal < decisions && decisions < open && open < attempts);

    assert!(p.text.contains("Assembled by Baton on 2026-08-23"));
    assert!(p.text.contains("Point the browser at pages"), "next step is missing");
}

#[test]
fn a_superseded_decision_is_not_offered_as_current() {
    let p = assemble(&corpus(), "baton", 10_000, today(), &Default::default());
    assert!(p.text.contains("Markdown files are the source of truth"));
    assert!(
        !p.text.contains("- The content column holds JSON"),
        "a reversed decision must not read as one that still holds"
    );
}

#[test]
fn an_abandoned_route_is_carried_with_the_reason_it_failed() {
    let p = assemble(&corpus(), "baton", 10_000, today(), &Default::default());
    assert!(p.text.contains("Hosted proxy [superseded]"));
    assert!(p.text.contains("Every conversation would transit our infrastructure"));
}

#[test]
fn the_budget_drops_from_the_bottom_and_says_so() {
    let full = assemble(&corpus(), "baton", 10_000, today(), &Default::default());
    let tight = assemble(&corpus(), "baton", 200, today(), &Default::default());

    assert!(tight.tokens < full.tokens);
    assert!(tight.pages_dropped > 0);
    assert!(tight.text.contains("left out to stay inside the token budget"));
    assert!(tight.text.contains("## Goal"));
    assert!(tight.text.contains("Point the browser at pages"));
}

#[test]
fn an_empty_section_is_left_out_rather_than_left_blank() {
    let only_overview = vec![corpus().remove(0)];
    let p = assemble(&only_overview, "baton", 10_000, today(), &Default::default());
    assert!(p.text.contains("## Goal"));
    assert!(!p.text.contains("## Open questions"));
    assert!(!p.text.contains("## Routes already tried"));
}

#[test]
fn concepts_are_included_even_though_they_belong_to_no_project() {
    let p = assemble(&corpus(), "baton", 10_000, today(), &Default::default());
    assert!(p.text.contains("Never hold a std Mutex"));
    assert!(p.text.contains("A guard held across an `.await`"));
}

#[test]
fn a_decision_arrives_with_its_rejected_section_intact() {
    let p = assemble(&corpus(), "baton", 10_000, today(), &Default::default());
    assert!(p.text.contains("## Rejected"));
    assert!(p.text.contains("SQLite as truth"), "rejected alternative dropped");
}

#[test]
fn a_brief_carrying_a_flagged_page_says_so_in_its_own_text() {
    let pages = corpus();
    let flagged = pages
        .iter()
        .find(|p| p.frontmatter.page_type == PageType::Project)
        .expect("corpus has an overview")
        .id
        .clone();
    let mut lint = Report::new();
    lint.insert(flagged.clone(), vec![Finding::TooLong { words: 412 }]);

    let p = assemble(&pages, "baton", 10_000, today(), &lint);
    assert!(p.text.contains("## Stale, treat with care"));
    assert!(p.text.contains(&flagged));
    assert!(p.text.contains("412 words"));
}

#[test]
fn a_clean_wiki_gets_no_warning_section() {
    let p = assemble(&corpus(), "baton", 10_000, today(), &Default::default());
    assert!(!p.text.contains("Stale, treat with care"));
}

#[test]
fn a_warning_about_a_page_that_was_dropped_is_not_shown() {
    let mut lint = Report::new();
    lint.insert("projects/baton/not-in-this-brief".to_string(), vec![Finding::Orphan]);
    let p = assemble(&corpus(), "baton", 10_000, today(), &lint);
    assert!(!p.text.contains("not-in-this-brief"));
}

#[test]
fn the_header_counts_what_the_brief_actually_carries() {
    let p = assemble(&corpus(), "baton", 10_000, today(), &Default::default());
    assert!(
        p.text.contains(&format!("from {} wiki pages", p.pages_included)),
        "header disagrees with pages_included: {}",
        p.text.lines().take(3).collect::<Vec<_>>().join(" ")
    );
    assert!(!p.text.contains("PAGE_COUNT"), "placeholder leaked into the brief");
}

#[test]
fn the_default_project_is_the_one_touched_last() {
    assert_eq!(most_recent_project(&corpus()).as_deref(), Some("baton"));
    assert_eq!(most_recent_project(&[]), None);
}

#[test]
fn the_counts_and_the_estimate_agree_with_the_text() {
    let p = assemble(&corpus(), "baton", 10_000, today(), &Default::default());
    // The overview, one live decision, the open question, the attempt and
    // the concept; the superseded decision is history, not what holds.
    assert_eq!(p.pages_included, 5);
    assert_eq!(p.pages_dropped, 0);
    assert_eq!(p.project, "baton");
    assert_eq!(p.tokens, p.text.len().div_ceil(4));
    assert!(p.text.contains("from 5 wiki pages"));
}

#[test]
fn warnings_are_listed_in_id_order() {
    let mut lint = Report::new();
    lint.insert("projects/baton/overview".to_string(), vec![Finding::Orphan]);
    lint.insert("concepts/mutex-across-await".to_string(), vec![Finding::MissingFromIndex]);
    let p = assemble(&corpus(), "baton", 10_000, today(), &lint);
    let a = p.text.find("- concepts/mutex-across-await is not listed in index.md").unwrap();
    let b = p.text.find("- projects/baton/overview is linked from nowhere and links nowhere").unwrap();
    assert!(a < b);
}

#[test]
fn the_title_line_is_dropped_from_a_carried_page() {
    let p = &corpus()[1];
    assert_eq!(
        body_without_title(p),
        "## Decision\n\nThe wiki is plain markdown in ~/Baton.\n\n## Why\n\nGit.\n\n## Rejected\n\nSQLite as truth."
    );
}

#[test]
fn tokens_are_bytes_over_four_rounded_up() {
    assert_eq!(estimate_tokens(""), 0);
    assert_eq!(estimate_tokens("abcd"), 1);
    assert_eq!(estimate_tokens("abcde"), 2);
    assert_eq!(estimate_tokens("é"), 1);
}

#[test]
fn a_tight_budget_still_states_what_the_brief_carries() {
    let mut pages = corpus();
    pages.push(page(
        "projects/baton/decisions/placeholder-in-prose",
        "decision",
        "baton",
        "current",
        "# A page that quotes {{PAGE_COUNT}}\n\n## Decision\n\nKeep it.\n",
    ));
    for budget in [10_000, 200, 0] {
        let p = assemble(&pages, "baton", budget, today(), &Default::default());
        assert!(p.text.contains(&format!(" from {} wiki pages.", p.pages_included)));
        assert!(!p.text.contains("{{PAGE_COUNT}}"));
    }
}

#[test]
fn dates_read_as_iso_8601() {
    assert_eq!(Date::from_ymd_opt(2026, 8, 3).unwrap().to_string(), "2026-08-03");
    assert_eq!(Date::from_ymd_opt(-1, 1, 1).unwrap().to_string(), "-0001-01-01");
    assert_eq!(Date::from_ymd_opt(10000, 12, 31).unwrap().to_string(), "+10000-12-31");
}
