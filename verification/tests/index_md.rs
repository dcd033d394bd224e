use baton::frontmatter::Status;
use baton::index_md::{blurb, readable_id, render, status_note, type_heading, type_rank};
use baton::frontmatter::PageType;
use baton::wiki::{parse, Page};

const ROOT: &str = "/index";

fn page(rel: &str, body: &str) -> Page {
    let path = format!("{ROOT}/{rel}.md");
    parse(ROOT, &path, body).unwrap()
}

const OVERVIEW: &str = "---\ntype: project\nproject: baton\nstatus: current\nupdated: 2026-08-23\nsources: []\n---\n\n# Baton\n\n## Goal\n\nA central markdown wiki. It holds everything.\n\n## Current state\n\nPhase 1.\n\n## Next step\n\nShip.\n";
const GOTCHA: &str = "---\ntype: gotcha\nproject: null\nstatus: current\nupdated: 2026-08-23\nsources: []\n---\n\n# AppKit main thread\n\n## The constraint\n\nEvery AppKit window mutation must happen on the main thread.\n\n## The symptom\n\nEXC_BREAKPOINT.\n\n## The fix\n\nHop threads.\n";
const OLD_DECISION: &str = "---\ntype: decision\nproject: baton\nstatus: superseded\nupdated: 2026-08-23\nsources: []\n---\n\n# JSON not markdown\n\n## Decision\n\nStore JSON in SQLite.\n\n## Why\n\nOne flat document.\n\n## Rejected\n\nMarkdown files.\n";

#[test]
fn groups_by_project_with_concepts_last() {
    let pages = vec![
        page("concepts/appkit", GOTCHA),
        page("projects/baton/overview", OVERVIEW),
    ];
    let out = render(&pages);
    assert!(
        out.find("## baton").unwrap() < out.find("## Concepts").unwrap(),
        "concepts must sort after real projects"
    );
    assert!(out.contains("[[projects/baton/overview|"));
    assert!(out.contains("[[concepts/appkit|"));
}

#[test]
fn the_index_shows_titles_not_paths() {
    let out = render(&[page("projects/baton/overview", OVERVIEW)]);
    assert!(
        out.contains("[[projects/baton/overview|Baton]]"),
        "the path is shown instead of the title: {out}"
    );
}

#[test]
fn a_titleless_page_falls_back_to_a_readable_name() {
    assert_eq!(readable_id("projects/baton/decisions/files-are-truth"), "Files are truth");
    assert_eq!(readable_id("concepts/appkit_main_thread"), "Appkit main thread");
}

#[test]
fn every_page_appears() {
    let pages = vec![
        page("projects/baton/overview", OVERVIEW),
        page("projects/baton/decisions/json", OLD_DECISION),
        page("concepts/appkit", GOTCHA),
    ];
    let out = render(&pages);
    for p in &pages {
        assert!(out.contains(&format!("[[{}|", p.id)), "{} missing", p.id);
    }
}

#[test]
fn non_current_pages_are_marked() {
    let out = render(&[page("projects/baton/decisions/json", OLD_DECISION)]);
    assert!(out.contains("superseded"), "a reader would think it is live");
}

#[test]
fn blurb_comes_from_the_page_not_invented() {
    let out = render(&[page("projects/baton/overview", OVERVIEW)]);
    assert!(out.contains("A central markdown wiki"));
}

#[test]
fn blurb_is_a_whole_sentence_across_wrapped_lines() {
    let wrapped = "---\ntype: project\nproject: w\nstatus: current\nupdated: 2026-08-23\nsources: []\n---\n\n# W\n\n## Goal\n\nA central markdown wiki, written by the agent\nthat did the work and read back later.\n\n## Current state\n\nx\n\n## Next step\n\ny\n";
    let out = render(&[page("projects/w/overview", wrapped)]);
    assert!(out.contains("read back later"), "blurb stopped at the line break: {out}");
    assert!(!out.contains("\n  that did"), "line break leaked into the index");
}

#[test]
fn output_is_stable_across_runs() {
    let pages = vec![
        page("concepts/appkit", GOTCHA),
        page("projects/baton/overview", OVERVIEW),
    ];
    let mut reversed = pages.clone();
    reversed.reverse();
    assert_eq!(render(&pages), render(&reversed));
}

#[test]
fn empty_wiki_says_so() {
    let out = render(&[]);
    assert!(out.contains("No pages yet"));
    assert!(out.starts_with("# Baton index\n\n"));
}

#[test]
fn the_whole_index_reads_exactly() {
    let pages = vec![
        page("concepts/appkit", GOTCHA),
        page("projects/baton/decisions/json", OLD_DECISION),
        page("projects/baton/overview", OVERVIEW),
    ];
    let out = render(&pages);
    let want = "# Baton index\n\nEvery page, grouped by project and then by type. Derived from the tree — edit the tree, not this file.\n\
        \n## baton\n\
        \n### Overview\n\n\
        - [[projects/baton/overview|Baton]] — A central markdown wiki\n\
        \n### Decisions\n\n\
        - [[projects/baton/decisions/json|JSON not markdown]] — Store JSON in SQLite — superseded\n\
        \n## Concepts\n\
        \n### Gotchas\n\n\
        - [[concepts/appkit|AppKit main thread]] — Every AppKit window mutation must happen on the main thread\n";
    assert_eq!(out, want);
}

#[test]
fn a_long_first_sentence_is_cut_with_an_ellipsis() {
    let long = "x".repeat(150);
    let text = format!("---\ntype: gotcha\nproject: null\nstatus: current\nupdated: 2026-08-23\nsources: []\n---\n\n# T\n\n## The constraint\n\n{long}\n");
    let p = page("concepts/long", &text);
    let b = blurb(&p);
    assert_eq!(b.chars().count(), 98);
    assert!(b.ends_with('…'));
}

#[test]
fn code_and_lists_are_not_quoted_as_the_blurb() {
    let text = "---\ntype: gotcha\nproject: null\nstatus: current\nupdated: 2026-08-23\nsources: []\n---\n\n# T\n\n## The constraint\n\n```\ncode\n```\n\n- a list\n\nThe real sentence. More.\n";
    assert_eq!(blurb(&page("concepts/c", text)), "The real sentence");
}

#[test]
fn ranks_headings_and_notes_are_fixed() {
    assert_eq!(type_rank(PageType::Project), 0);
    assert_eq!(type_rank(PageType::Gotcha), 5);
    assert_eq!(type_heading(PageType::Open), "Open questions");
    assert_eq!(status_note(Status::Current), "");
    assert_eq!(status_note(Status::Stale), " — stale");
}

#[test]
fn a_titleless_page_is_labelled_from_its_id() {
    let text = "---\ntype: gotcha\nproject: null\nstatus: current\nupdated: 2026-08-23\nsources: []\n---\n\n## The constraint\n\nOne.\n";
    let out = render(&[page("concepts/no-title_here", text)]);
    assert!(out.contains("[[concepts/no-title_here|No title here]]"), "{out}");
}

#[test]
fn concepts_come_last_whatever_a_project_is_called() {
    let pages = vec![
        page("concepts/appkit", GOTCHA),
        page("projects/ux/overview", &OVERVIEW.replace("project: baton", "project: ~x")),
        page("projects/uber/overview", &OVERVIEW.replace("project: baton", "project: über")),
        page("projects/baton/overview", OVERVIEW),
        page("projects/c/overview", &OVERVIEW.replace("project: baton", "project: ~concepts")),
    ];
    let out = render(&pages);
    let at = |h: &str| out.find(&format!("\n## {h}\n")).unwrap_or_else(|| panic!("no group {h}"));
    assert!(at("baton") < at("~concepts"));
    assert!(at("~concepts") < at("~x"));
    assert!(at("~x") < at("über"));
    assert!(at("über") < at("Concepts"));
}
