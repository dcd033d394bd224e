use baton::lint::{check, indexed_ids_in, Finding};
use baton::wiki::{parse, Page};

const ROOT: &str = "/lint";

fn page(rel: &str, body: &str) -> Page {
    let path = format!("{ROOT}/{rel}.md");
    parse(ROOT, &path, body).unwrap()
}

fn fm(t: &str, status: &str) -> String {
    let project = if t == "gotcha" { "null" } else { "baton" };
    format!("---\ntype: {t}\nproject: {project}\nstatus: {status}\nupdated: 2026-08-23\nsources: []\n---\n\n")
}

fn all_indexed(pages: &[Page]) -> Vec<String> {
    pages.iter().map(|p| p.id.clone()).collect()
}

#[test]
fn a_complete_page_produces_no_findings() {
    let a = page("projects/baton/overview",
        &format!("{}# B\n\n## Goal\n\nx [[concepts/g]]\n\n## Current state\n\ny\n\n## Next step\n\nz\n", fm("project", "current")));
    let b = page("concepts/g",
        &format!("{}# G\n\n## The constraint\n\na\n\n## The symptom\n\nb\n\n## The fix\n\nc\n", fm("gotcha", "current")));
    let pages = vec![a, b];
    let r = check(&pages, Some(&all_indexed(&pages)));
    assert!(r.is_empty(), "clean wiki produced findings: {r:?}");
}

#[test]
fn an_unreadable_index_skips_the_check_rather_than_flagging_everything() {
    let p = page("concepts/g",
        &format!("{}# G\n\n## The constraint\n\na\n\n## The symptom\n\nb\n\n## The fix\n\nc\n", fm("gotcha", "current")));
    let pages = vec![p];
    let r = check(&pages, None);
    let findings = r.get("concepts/g").cloned().unwrap_or_default();
    assert!(
        !findings.contains(&Finding::MissingFromIndex),
        "flagged every page because the catalogue was unreadable: {findings:?}"
    );
}

#[test]
fn heading_case_is_matched_the_same_way_everywhere() {
    let p = page("projects/baton/overview",
        &format!("{}# B\n\n## goal\n\nx\n\n## Current State\n\ny\n\n## next step\n\nz\n", fm("project", "current")));
    let pages = vec![p];
    let findings = check(&pages, Some(&all_indexed(&pages)))
        .get("projects/baton/overview").cloned().unwrap_or_default();
    assert!(
        !findings.iter().any(|f| matches!(f, Finding::UnknownHeading { .. })),
        "case difference reported as an off-schema heading: {findings:?}"
    );
    assert!(
        !findings.iter().any(|f| matches!(f, Finding::MissingSection { .. })),
        "case difference reported as a missing section: {findings:?}"
    );
}

#[test]
fn a_missing_required_section_is_reported() {
    let p = page("projects/baton/decisions/d",
        &format!("{}# D\n\n## Decision\n\nx\n\n## Why\n\ny\n", fm("decision", "current")));
    let pages = vec![p];
    let r = check(&pages, Some(&all_indexed(&pages)));
    let f = r.get("projects/baton/decisions/d").unwrap();
    assert!(f.contains(&Finding::MissingSection { heading: "Rejected".into() }));
}

#[test]
fn an_off_schema_heading_is_distinguished_from_a_misplaced_one() {
    let p = page("concepts/g",
        &format!("{}# G\n\n## The constraint\n\na\n\n## The symptom\n\nb\n\n## The fix\n\nc\n\n## Notes\n\nd\n\n## Rejected\n\ne\n", fm("gotcha", "current")));
    let pages = vec![p];
    let r = check(&pages, Some(&all_indexed(&pages)));
    let f = r.get("concepts/g").unwrap();
    assert!(f.contains(&Finding::UnknownHeading { heading: "Notes".into() }));
    assert!(f.contains(&Finding::HeadingOnWrongType { heading: "Rejected".into() }));
}

#[test]
fn a_decisions_optional_sections_are_not_flagged() {
    let p = page("projects/baton/decisions/d",
        &format!("{}# D\n\n## Decision\n\nx\n\n## Why\n\ny\n\n## Rejected\n\nz\n\n## Supersedes\n\n[[projects/baton/decisions/old]]\n\n## Known cost\n\nc\n\n## Reverses\n\n[[projects/baton/decisions/older]]\n", fm("decision", "current")));
    let pages = vec![p];
    let r = check(&pages, Some(&all_indexed(&pages)));
    let findings = r.get("projects/baton/decisions/d").cloned().unwrap_or_default();
    assert!(
        !findings.iter().any(|f| matches!(f, Finding::UnknownHeading { .. })),
        "optional decision sections flagged: {findings:?}"
    );
}

#[test]
fn an_optional_decision_heading_on_another_type_is_still_wrong() {
    let p = page("concepts/g",
        &format!("{}# G\n\n## The constraint\n\na\n\n## The symptom\n\nb\n\n## The fix\n\nc\n\n## Known cost\n\nd\n", fm("gotcha", "current")));
    let pages = vec![p];
    let r = check(&pages, Some(&all_indexed(&pages)));
    let f = r.get("concepts/g").unwrap();
    assert!(f.contains(&Finding::HeadingOnWrongType { heading: "Known cost".into() }));
}

#[test]
fn a_link_to_a_page_that_does_not_exist_is_flagged() {
    let p = page("projects/baton/overview",
        &format!("{}# B\n\n## Goal\n\nSee [[concepts/nope]].\n\n## Current state\n\ny\n\n## Next step\n\nz\n", fm("project", "current")));
    let pages = vec![p];
    let r = check(&pages, Some(&all_indexed(&pages)));
    let f = r.get("projects/baton/overview").unwrap();
    assert!(f.contains(&Finding::BrokenLink { target: "concepts/nope".into() }));
}

#[test]
fn a_link_to_a_real_page_is_not_flagged() {
    let a = page("projects/baton/overview",
        &format!("{}# B\n\n## Goal\n\nSee [[concepts/g]].\n\n## Current state\n\ny\n\n## Next step\n\nz\n", fm("project", "current")));
    let b = page("concepts/g",
        &format!("{}# G\n\n## The constraint\n\na\n\n## The symptom\n\nb\n\n## The fix\n\nc\n", fm("gotcha", "current")));
    let pages = vec![a, b];
    let r = check(&pages, Some(&all_indexed(&pages)));
    let f = r.get("projects/baton/overview").cloned().unwrap_or_default();
    assert!(!f.iter().any(|x| matches!(x, Finding::BrokenLink { .. })), "{f:?}");
}

#[test]
fn an_attempt_may_not_be_current() {
    let p = page("projects/baton/attempts/a",
        &format!("{}# A\n\n## What was tried\n\nx\n\n## Why it failed\n\ny\n\n## What it cost\n\nz\n", fm("attempt", "current")));
    let pages = vec![p];
    assert!(check(&pages, Some(&all_indexed(&pages)))
        .get("projects/baton/attempts/a").unwrap()
        .contains(&Finding::AttemptIsCurrent));
}

#[test]
fn superseded_without_a_forward_link_breaks_the_chain() {
    let p = page("projects/baton/decisions/old",
        &format!("{}# Old\n\n## Decision\n\nx\n\n## Why\n\ny\n\n## Rejected\n\nz\n", fm("decision", "superseded")));
    let pages = vec![p];
    assert!(check(&pages, Some(&all_indexed(&pages)))
        .get("projects/baton/decisions/old").unwrap()
        .contains(&Finding::SupersededWithoutLink));
}

#[test]
fn a_page_its_own_successor_replaced_should_not_read_current() {
    let old = page("projects/baton/decisions/old",
        &format!("{}# Old\n\n## Decision\n\nx\n\n## Why\n\ny\n\n## Rejected\n\nz\n\n## Superseded by\n\n[[projects/baton/decisions/new]]\n", fm("decision", "current")));
    let new = page("projects/baton/decisions/new",
        &format!("{}# New\n\n## Decision\n\nx\n\n## Why\n\n[[projects/baton/decisions/old]]\n\n## Rejected\n\nz\n", fm("decision", "current")));
    let pages = vec![old, new];
    let r = check(&pages, Some(&all_indexed(&pages)));
    let f = r.get("projects/baton/decisions/old").unwrap();
    assert!(f.iter().any(|x| matches!(x, Finding::ContradictedBySuccessor { .. })),
        "a page replaced by another must not read current: {f:?}");
}

#[test]
fn an_unreachable_page_is_an_orphan() {
    let a = page("projects/baton/overview",
        &format!("{}# B\n\n## Goal\n\nx\n\n## Current state\n\ny\n\n## Next step\n\nz\n", fm("project", "current")));
    let b = page("concepts/lonely",
        &format!("{}# L\n\n## The constraint\n\na\n\n## The symptom\n\nb\n\n## The fix\n\nc\n", fm("gotcha", "current")));
    let pages = vec![a, b];
    let r = check(&pages, Some(&all_indexed(&pages)));
    assert!(r.get("concepts/lonely").unwrap().contains(&Finding::Orphan));
    assert!(r.get("projects/baton/overview").unwrap().contains(&Finding::Orphan));
}

#[test]
fn a_page_absent_from_the_index_invites_a_duplicate() {
    let p = page("concepts/g",
        &format!("{}# G\n\n## The constraint\n\na\n\n## The symptom\n\nb\n\n## The fix\n\nc\n", fm("gotcha", "current")));
    let pages = vec![p];
    let r = check(&pages, Some(&Vec::new()));
    let f = r.get("concepts/g").unwrap();
    assert!(f.contains(&Finding::MissingFromIndex));
}

#[test]
fn a_page_over_the_word_limit_is_flagged() {
    let filler = "word ".repeat(400);
    let p = page("concepts/g",
        &format!("{}# G\n\n## The constraint\n\n{filler}\n\n## The symptom\n\nb\n\n## The fix\n\nc\n", fm("gotcha", "current")));
    let pages = vec![p];
    let r = check(&pages, Some(&all_indexed(&pages)));
    let f = r.get("concepts/g").unwrap();
    assert!(f.iter().any(|x| matches!(x, Finding::TooLong { .. })));
}

#[test]
fn every_finding_reads_as_a_sentence_about_the_page() {
    for f in [
        Finding::MissingTitle,
        Finding::MissingSection { heading: "Goal".into() },
        Finding::UnknownHeading { heading: "Notes".into() },
        Finding::HeadingOnWrongType { heading: "Rejected".into() },
        Finding::AttemptIsCurrent,
        Finding::SupersededWithoutLink,
        Finding::ContradictedBySuccessor { successor: "a/b".into() },
        Finding::Orphan,
        Finding::MissingFromIndex,
        Finding::TooLong { words: 400 },
    ] {
        let m = f.message();
        assert!(m.len() > 15, "{f:?} message too terse: {m}");
        assert!(!m.contains("Finding"), "{m} leaks the type name");
    }
}

#[test]
fn finding_messages_are_exact() {
    assert_eq!(Finding::MissingSection { heading: "Goal".into() }.message(), "missing its `## Goal` section");
    assert_eq!(Finding::MissingTitle.message(), "has no `#` title line stating its claim");
    assert_eq!(Finding::TooLong { words: 412 }.message(), "is 412 words, over the 300-word limit");
    assert_eq!(
        Finding::BrokenLink { target: "a/b".into() }.message(),
        "links to [[a/b]], which does not exist"
    );
    assert_eq!(
        Finding::ContradictedBySuccessor { successor: "x".into() }.message(),
        "still reads `current`, but x says it supersedes this"
    );
}

#[test]
fn findings_come_in_check_order_and_a_clean_page_is_absent() {
    let a = page("projects/baton/attempts/a",
        &format!("{}# A\n\n## What was tried\n\nx [[concepts/nope]]\n\n## Notes\n\nn\n", fm("attempt", "current")));
    let b = page("concepts/g",
        &format!("{}# G\n\n## The constraint\n\na [[projects/baton/attempts/a]]\n\n## The symptom\n\nb\n\n## The fix\n\nc\n", fm("gotcha", "current")));
    let pages = vec![a, b];
    let r = check(&pages, Some(&all_indexed(&pages)));
    assert!(r.get("concepts/g").is_none(), "a page without findings must be absent");
    assert_eq!(
        r.get("projects/baton/attempts/a").unwrap().clone(),
        vec![
            Finding::MissingSection { heading: "Why it failed".into() },
            Finding::MissingSection { heading: "What it cost".into() },
            Finding::UnknownHeading { heading: "Notes".into() },
            Finding::AttemptIsCurrent,
            Finding::BrokenLink { target: "concepts/nope".into() },
        ]
    );
    assert!(!r.is_empty());
}

#[test]
fn the_index_listing_is_read_from_its_links_once_each() {
    let ids = indexed_ids_in(ROOT, "# Index\n\n- [[a|A]]\n- [[b]] and [[a]]\n");
    assert_eq!(ids, vec!["a".to_string(), "b".to_string()]);
}

#[test]
fn a_report_can_be_filled_by_hand() {
    let mut r = baton::lint::Report::new();
    assert!(r.is_empty());
    r.insert("x".to_string(), vec![Finding::Orphan]);
    r.insert("x".to_string(), vec![Finding::MissingFromIndex]);
    assert_eq!(r.get("x").unwrap().clone(), vec![Finding::MissingFromIndex]);
    assert_eq!(r.ids(), vec!["x".to_string()]);
}

#[test]
fn a_page_without_a_title_is_flagged() {
    let a = page("projects/baton/overview",
        &format!("{}# B\n\n## Goal\n\nx [[concepts/g]]\n\n## Current state\n\ny\n\n## Next step\n\nz\n", fm("project", "current")));
    let b = page("concepts/g",
        &format!("{}## The constraint\n\na\n\n## The symptom\n\nb\n\n## The fix\n\nc\n", fm("gotcha", "current")));
    assert_eq!(b.title, "");
    let pages = vec![a, b];
    let r = check(&pages, Some(&all_indexed(&pages)));
    assert!(r.get("projects/baton/overview").is_none());
    assert_eq!(r.get("concepts/g").unwrap().clone(), vec![Finding::MissingTitle]);
}
