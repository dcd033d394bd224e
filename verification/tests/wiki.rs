use baton::frontmatter::{PageType, Status};
use baton::wiki::{classify_entry, links_in, page_id, page_path, parse, Entry, Page, WikiError};

const ROOT: &str = "/wiki";

fn parse_page(text: &str) -> Page {
    parse(ROOT, "/wiki/projects/baton/db.md", text).unwrap()
}

fn page(frontmatter: &str, body: &str) -> String {
    format!("---\n{}\n---\n\n{}", frontmatter.trim(), body.trim_start())
}

const FM: &str = "
type: component
project: baton
status: current
updated: 2026-08-22
sources: [7123f71b]";

#[test]
fn parses_the_shape_a_real_page_has() {
    let p = parse_page(&page(
        FM,
        "# db.rs, the SQLite layer\n\n\
         ## What it does\n\nOwns the only connection.\n\n\
         ## Gotchas\n\n- Never hold the mutex across an await.\n\n\
         ## Related files\n\n```\nsrc-tauri/src/db.rs\n```\n",
    ));

    assert_eq!(p.id, "projects/baton/db");
    assert_eq!(p.frontmatter.page_type, PageType::Component);
    assert_eq!(p.frontmatter.project.as_deref(), Some("baton"));
    assert_eq!(p.frontmatter.status, Status::Current);
    assert_eq!(p.frontmatter.updated.to_string(), "2026-08-22");
    assert_eq!(p.frontmatter.sources, ["7123f71b"]);
    assert_eq!(p.title, "db.rs, the SQLite layer");
    assert!(p.preamble.is_empty());

    let headings: Vec<&str> = p.sections.iter().map(|s| s.heading.as_str()).collect();
    assert_eq!(headings, ["What it does", "Gotchas", "Related files"]);
    assert_eq!(p.section("what it does").unwrap().body, "Owns the only connection.");
    assert_eq!(p.section("Related files").unwrap().body, "```\nsrc-tauri/src/db.rs\n```");
}

#[test]
fn concepts_pages_carry_a_null_project() {
    let p = parse_page(&page(
        "type: gotcha\nproject: null\nstatus: current\nupdated: 2026-08-22\nsources: [7123f71b]",
        "# Never hold a std Mutex across an await\n",
    ));
    assert!(p.frontmatter.project.is_none());
    assert_eq!(p.frontmatter.page_type, PageType::Gotcha);
}

#[test]
fn frontmatter_tolerates_comments_quotes_and_block_lists() {
    let p = parse_page(&page(
        "type: decision            # project | decision | open\n\
         project: 'baton'\n\
         status: superseded\n\
         updated: 2026-08-22       # ISO date\n\
         sources:\n  - 7123f71b\n  - \"9f2c0a11\"\n",
        "# Title\n",
    ));
    assert_eq!(p.frontmatter.page_type, PageType::Decision);
    assert_eq!(p.frontmatter.project.as_deref(), Some("baton"));
    assert_eq!(p.frontmatter.status, Status::Superseded);
    assert_eq!(p.frontmatter.sources, ["7123f71b", "9f2c0a11"]);
}

#[test]
fn empty_source_list_is_allowed_but_a_missing_field_is_not() {
    let p = parse_page(&page(
        "type: open\nproject: baton\nstatus: stale\nupdated: 2026-08-22\nsources: []",
        "# Title\n",
    ));
    assert!(p.frontmatter.sources.is_empty());

    let missing = parse(
        ROOT,
        "/wiki/a.md",
        &page("type: open\nproject: baton\nstatus: stale\nsources: []", "# T"),
    );
    assert!(matches!(
        missing,
        Err(WikiError::MissingField { key, .. }) if key == "updated"
    ));
}

#[test]
fn an_unknown_type_or_status_names_the_field_and_the_value() {
    let bad_type = parse(
        ROOT,
        "/wiki/a.md",
        &page(
            "type: note\nproject: baton\nstatus: current\nupdated: 2026-08-22\nsources: []",
            "# T",
        ),
    );
    let Err(WikiError::BadField { key, detail, .. }) = bad_type else {
        panic!("an off-schema type must not parse");
    };
    assert_eq!(key, "type");
    assert!(detail.contains("note") && detail.contains("gotcha"));

    let bad_date = parse(
        ROOT,
        "/wiki/a.md",
        &page(
            "type: open\nproject: baton\nstatus: current\nupdated: yesterday\nsources: []",
            "# T",
        ),
    );
    assert!(matches!(
        bad_date,
        Err(WikiError::BadField { key, .. }) if key == "updated"
    ));
}

#[test]
fn a_page_without_frontmatter_is_an_error_not_an_empty_default() {
    assert!(matches!(
        parse(ROOT, "/wiki/index.md", "# Index\n\n- [[a]]\n"),
        Err(WikiError::MissingFrontmatter { .. })
    ));
    assert!(matches!(
        parse(ROOT, "/wiki/a.md", "---\ntype: open\n"),
        Err(WikiError::UnterminatedFrontmatter { .. })
    ));
}

#[test]
fn crlf_and_a_byte_order_mark_parse_the_same_as_lf() {
    let text = format!("\u{feff}{}", page(FM, "# Title\n\n## Gotchas\n\nOne line.\n"))
        .replace('\n', "\r\n");
    let p = parse_page(&text);
    assert_eq!(p.title, "Title");
    assert_eq!(p.section("Gotchas").unwrap().body, "One line.");
}

#[test]
fn headings_inside_a_fence_do_not_open_a_section() {
    let p = parse_page(&page(
        FM,
        "# Title\n\n\
         ## Gotchas\n\n\
         ````markdown\n## Goal\n## Current state\n````\n\n\
         Still gotchas.\n\n\
         ~~~\n## Not a heading either\n~~~\n\n\
         ## Related files\n\nsrc-tauri/src/db.rs\n",
    ));
    let headings: Vec<&str> = p.sections.iter().map(|s| s.heading.as_str()).collect();
    assert_eq!(headings, ["Gotchas", "Related files"]);
    assert!(p.section("Gotchas").unwrap().body.contains("## Goal"));
}

#[test]
fn deeper_headings_stay_inside_their_section() {
    let p = parse_page(&page(
        FM,
        "# Title\n\n## Options\n\n### First\n\nCost.\n\n### Second\n\nCost.\n",
    ));
    assert_eq!(p.sections.len(), 1);
    assert!(p.section("Options").unwrap().body.starts_with("### First"));
}

#[test]
fn text_before_the_first_section_is_kept_as_the_preamble() {
    let p = parse_page(&page(FM, "# Title\n\nAn intro a human added.\n\n## Gotchas\n\nOne.\n"));
    assert_eq!(p.preamble, "An intro a human added.");
    assert_eq!(p.sections.len(), 1);
}

#[test]
fn links_resolve_to_paths_under_the_root() {
    let p = parse_page(&page(
        FM,
        "# Title\n\n## Gotchas\n\nSee [[concepts/mutex-across-await]] and\n\
         [[projects/baton/decisions/files-are-truth]].\n",
    ));
    assert_eq!(p.links.len(), 2);
    assert_eq!(p.links[0].target, "concepts/mutex-across-await");
    assert_eq!(
        p.links[0].path.as_deref(),
        Some("/wiki/concepts/mutex-across-await.md")
    );
    assert!(p.links[0].alias.is_none());
}

#[test]
fn links_carry_obsidian_aliases_anchors_and_a_written_out_extension() {
    let links = links_in(
        ROOT,
        "[[concepts/tauri-nspanel|the panel note]] [[concepts/pnpm-allowbuilds#The fix]] \
         [[concepts/cargo-not-on-path.md]]",
    );
    let targets: Vec<&str> = links.iter().map(|l| l.target.as_str()).collect();
    assert_eq!(
        targets,
        [
            "concepts/tauri-nspanel",
            "concepts/pnpm-allowbuilds",
            "concepts/cargo-not-on-path"
        ]
    );
    assert_eq!(links[0].alias.as_deref(), Some("the panel note"));
    assert_eq!(
        links[2].path.as_deref(),
        Some("/wiki/concepts/cargo-not-on-path.md")
    );
}

#[test]
fn a_link_that_escapes_the_root_resolves_to_no_path() {
    let links = links_in(ROOT, "[[../../.ssh/id_rsa]] and [[projects/../../x]]");
    assert_eq!(links.len(), 2);
    assert!(links.iter().all(|l| l.path.is_none()));
    assert_eq!(links[0].target, "../../.ssh/id_rsa");

    let rooted = links_in(ROOT, "[[/concepts/tauri-nspanel]]");
    assert_eq!(rooted[0].target, "concepts/tauri-nspanel");
    assert_eq!(
        rooted[0].path.as_deref(),
        Some("/wiki/concepts/tauri-nspanel.md")
    );
}

#[test]
fn links_inside_code_are_examples_not_edges() {
    let p = parse_page(&page(
        FM,
        "# Title\n\n## Gotchas\n\n\
         Write `[[path/to/page]]` without the .md.\n\n\
         ```markdown\nSee [[projects/baton/overview]].\n```\n\n\
         But [[concepts/mutex-across-await]] counts.\n",
    ));
    let targets: Vec<&str> = p.links.iter().map(|l| l.target.as_str()).collect();
    assert_eq!(targets, ["concepts/mutex-across-await"]);
}

#[test]
fn an_unclosed_link_does_not_swallow_the_rest_of_the_line() {
    let links = links_in(ROOT, "[[broken and then [[concepts/tauri-nspanel]]");
    assert_eq!(links.len(), 1);
    assert_eq!(links[0].target, "concepts/tauri-nspanel");
}

#[test]
fn page_ids_are_forward_slashed_and_refuse_paths_outside_the_root() {
    let id = page_id(ROOT, "/wiki/projects/baton/decisions/files-are-truth.md");
    assert_eq!(id.unwrap(), "projects/baton/decisions/files-are-truth");
    assert!(matches!(
        page_id(ROOT, "/elsewhere/a.md"),
        Err(WikiError::OutsideRoot { .. })
    ));
}

#[test]
fn a_page_id_comes_back_from_the_file_it_names() {
    for root in [ROOT, "/wiki/", "relative/wiki", ""] {
        for id in ["projects/baton/overview", "concepts/mutex-across-await", "x/.", "a"] {
            let path = page_path(root, id).unwrap();
            assert_eq!(page_id(root, &path).unwrap(), id, "root {root:?}, id {id:?}");
        }
    }
    // A doubled slash is not an id's plain spelling: it names the same file.
    let path = page_path(ROOT, "a//b").unwrap();
    assert_eq!(page_id(ROOT, &path).unwrap(), "a/b");
}

#[test]
fn page_path_appends_the_extension_and_refuses_escapes() {
    assert_eq!(page_path(ROOT, "concepts/a").as_deref(), Some("/wiki/concepts/a.md"));
    assert!(page_path(ROOT, "../a").is_none());
    assert!(page_path(ROOT, "/etc/passwd").is_none());
    assert!(page_path(ROOT, "./a").is_none());
}

#[test]
fn errors_read_as_sentences_naming_the_file_and_field() {
    let e = parse(ROOT, "/wiki/a.md", "no frontmatter here\n").unwrap_err();
    assert_eq!(e.message(), "a has no frontmatter: a page must start with a --- line");
    let e = parse(
        ROOT,
        "/wiki/a.md",
        &page("type: open\nproject: baton\nstatus: stale\nsources: []", "# T"),
    )
    .unwrap_err();
    assert_eq!(e.message(), "a is missing the required frontmatter field `updated`");
    let e = page_id(ROOT, "/elsewhere/a.md").unwrap_err();
    assert_eq!(e.message(), "/elsewhere/a.md is outside the wiki root");
}

#[test]
fn a_list_where_one_value_belongs_is_refused() {
    let r = parse(
        ROOT,
        "/wiki/a.md",
        &page(
            "type: [open, decision]\nproject: baton\nstatus: current\nupdated: 2026-08-22\nsources: []",
            "# T",
        ),
    );
    assert!(matches!(r, Err(WikiError::BadField { key, .. }) if key == "type"));
}

#[test]
fn a_lone_source_and_a_null_spelling_read_as_expected() {
    let p = parse_page(&page(
        "type: gotcha\nproject: ~\nstatus: current\nupdated: 2026-08-22\nsources: 7123f71b",
        "# G\n",
    ));
    assert!(p.frontmatter.project.is_none());
    assert_eq!(p.frontmatter.sources, ["7123f71b"]);
}

#[test]
fn the_walk_takes_markdown_pages_and_nothing_else() {
    let at = |rel: &str| format!("{ROOT}/{rel}");
    let class = |rel: &str, name: &str, dir: bool| classify_entry(ROOT, &at(rel), name, dir).unwrap();
    assert_eq!(class("projects", "projects", true), Entry::Descend);
    assert_eq!(class(".git", ".git", true), Entry::Skip);
    assert_eq!(class(".acceptance-test.md", ".acceptance-test.md", false), Entry::Skip);
    assert_eq!(class("notes.txt", "notes.txt", false), Entry::Skip);
    assert_eq!(class("README.MD", "README.MD", false), Entry::Skip);
    assert_eq!(class("AGENTS.md", "AGENTS.md", false), Entry::Skip);
    assert_eq!(class("index.md", "index.md", false), Entry::Skip);
    assert_eq!(class("log.md", "log.md", false), Entry::Skip);
    assert_eq!(class("projects/baton/log.md", "log.md", false), Entry::Page);
    assert_eq!(class("concepts/mutex-across-await.md", "mutex-across-await.md", false), Entry::Page);
    assert!(matches!(
        classify_entry(ROOT, "/elsewhere/a.md", "a.md", false),
        Err(WikiError::OutsideRoot { .. })
    ));
}

#[test]
fn links_of_joined_texts_come_in_text_order_with_duplicates() {
    let a = "See [[a]] and `[[not-a-link]]`.\r";
    let b = "```\n[[in-a-fence]]\n```\n[[b|Bee]] then [[a]]";
    let joined = format!("{a}\n{b}");
    let targets = |t: &str| links_in(ROOT, t).into_iter().map(|l| l.target).collect::<Vec<_>>();
    let mut both = targets(a);
    both.extend(targets(b));
    assert_eq!(targets(&joined), both);
    assert_eq!(targets(&joined), vec!["a", "b", "a"]);
    assert_eq!(links_in(ROOT, "[[x]] [[x]]").len(), 2);
    for l in links_in(ROOT, &joined) {
        assert_eq!(l.path, page_path(ROOT, &l.target));
    }
}
