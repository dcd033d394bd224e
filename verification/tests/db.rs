use baton::db::{
    cannot_read, fingerprint, like_pattern, missing_ids, to_fts_query, unchanged, DbError, FileStat,
    IndexReport, ProjectHit, Sweep, schema_action, listing_after_walk, SchemaAction,
};
use baton::wiki::WikiError;

#[test]
fn the_fingerprint_is_stable_across_runs() {
    assert_eq!(fingerprint(), fingerprint());
    assert_ne!(fingerprint(), 0);
}

#[test]
fn typing_becomes_quoted_prefix_terms() {
    assert_eq!(to_fts_query("Git").as_deref(), Some("\"git\"*"));
    assert_eq!(
        to_fts_query("auth-migration: \"OAuth\"").as_deref(),
        Some("\"auth\"* \"migration\"* \"oauth\"*")
    );
    assert_eq!(to_fts_query("  *^-: ").as_deref(), None);
    assert_eq!(to_fts_query("").as_deref(), None);
}

#[test]
fn a_like_pattern_escapes_its_wildcards() {
    assert_eq!(like_pattern("  Bat ").as_deref(), Some("%bat%"));
    assert_eq!(like_pattern("50%_off").as_deref(), Some("%50\\%\\_off%"));
    assert_eq!(like_pattern("   ").as_deref(), None);
}

#[test]
fn a_project_row_falls_back_to_its_slug() {
    let with = ProjectHit::from_row("baton".into(), Some("Baton".into()), 2, "2026-08-22".into());
    assert_eq!((with.slug.as_str(), with.title.as_str(), with.page_count), ("baton", "Baton", 2));
    let blank = ProjectHit::from_row("orphaned".into(), Some("  ".into()), 1, "2026-08-22".into());
    assert_eq!(blank.title, "orphaned");
    let none = ProjectHit::from_row("x".into(), None, 1, "d".into());
    assert_eq!(none.title, "x");
}

#[test]
fn the_sweep_skips_exactly_the_unchanged_files() {
    let known = vec![
        ("a".to_string(), FileStat { mtime: 1, size: 10 }),
        ("b".to_string(), FileStat { mtime: 2, size: 20 }),
    ];
    assert!(unchanged(&known, &"a".to_string(), FileStat { mtime: 1, size: 10 }));
    assert!(!unchanged(&known, &"a".to_string(), FileStat { mtime: 1, size: 11 }));
    assert!(!unchanged(&known, &"c".to_string(), FileStat { mtime: 1, size: 10 }));
}

#[test]
fn rows_whose_file_is_gone_are_the_missing_ones() {
    let indexed = vec!["a".to_string(), "b".to_string(), "c".to_string()];
    let seen = vec!["c".to_string(), "a".to_string()];
    assert_eq!(missing_ids(&indexed, &seen), vec!["b".to_string()]);
    assert!(missing_ids(&indexed, &indexed).is_empty());
}

#[test]
fn errors_read_as_sentences() {
    assert_eq!(DbError::NotFound("x".into()).message(), "no context with id x");
    assert_eq!(DbError::Path("no home".into()).message(), "cannot locate the wiki: no home");
    assert_eq!(
        DbError::Wiki(WikiError::OutsideRoot { path: "/a".into() }).message(),
        "/a is outside the wiki root"
    );
    assert_eq!(cannot_read("a/b", "gone"), "cannot read a/b: gone");
}

#[test]
fn a_fresh_report_counts_nothing() {
    let r = IndexReport::default();
    assert_eq!((r.indexed, r.skipped, r.removed), (0, 0, 0));
    assert!(r.errors.is_empty());
}

#[test]
fn a_sweep_reads_what_changed_and_keeps_what_it_saw() {
    let known = vec![
        ("a".to_string(), FileStat { mtime: 1, size: 10 }),
        ("b".to_string(), FileStat { mtime: 2, size: 20 }),
        ("c".to_string(), FileStat { mtime: 3, size: 30 }),
    ];
    let mut sweep = Sweep::new();
    // Unchanged: skipped, not read.
    assert!(!sweep.visit(&known, "a".to_string(), Ok(FileStat { mtime: 1, size: 10 })));
    // Changed and new: read.
    assert!(sweep.visit(&known, "b".to_string(), Ok(FileStat { mtime: 5, size: 20 })));
    assert!(sweep.visit(&known, "d".to_string(), Ok(FileStat { mtime: 1, size: 1 })));
    // Vanished between the walk and the stat: reported, not read, still seen.
    assert!(!sweep.visit(&known, "c".to_string(), Err("gone".to_string())));
    sweep.unreadable("d has no frontmatter".to_string());

    let indexed = vec!["a".to_string(), "b".to_string(), "c".to_string(), "e".to_string()];
    let gone = sweep.gone(&indexed);
    assert_eq!(gone, vec!["e".to_string()]);

    let report = sweep.finish(1, gone.len());
    assert_eq!(report.indexed, 1);
    assert_eq!(report.skipped, 1);
    assert_eq!(report.removed, 1);
    assert_eq!(
        report.errors,
        vec!["cannot read c: gone".to_string(), "d has no frontmatter".to_string()]
    );
}

fn names(v: &[&str]) -> Vec<String> {
    v.iter().map(|s| s.to_string()).collect()
}

#[test]
fn a_matching_index_is_kept_and_anything_else_rebuilt_in_drop_order() {
    let current = names(&["pages", "sections", "links", "pages_fts"]);
    assert!(matches!(schema_action(fingerprint(), &current), SchemaAction::Keep));
    // A fresh file has nothing to keep.
    match schema_action(fingerprint(), &vec![]) {
        SchemaAction::Rebuild { drop } => assert!(drop.is_empty()),
        SchemaAction::Keep => panic!("an empty database was kept"),
    }
    // A stale fingerprint drops children before parents, the search table first.
    match schema_action(fingerprint().wrapping_add(1), &current) {
        SchemaAction::Rebuild { drop } => {
            assert_eq!(drop, names(&["pages_fts", "sections", "links", "pages"]))
        }
        SchemaAction::Keep => panic!("a stale index was kept"),
    }
    // An orphan from an older build forces a rebuild even with the right fingerprint.
    let old = names(&["pages", "contexts", "links", "pages_fts", "sections"]);
    match schema_action(fingerprint(), &old) {
        SchemaAction::Rebuild { drop } => {
            assert_eq!(drop, names(&["pages_fts", "links", "sections", "contexts", "pages"]))
        }
        SchemaAction::Keep => panic!("an orphan table was kept"),
    }
}

#[test]
fn a_vanished_wiki_folder_lists_no_pages() {
    let listed = names(&["/w/a.md"]);
    assert_eq!(listing_after_walk(Ok(listed.clone()), true).unwrap(), listed);
    assert_eq!(listing_after_walk(Ok(listed.clone()), false).unwrap(), listed);
    let gone = WikiError::Io { path: "/w".into(), detail: "not found".into() };
    assert!(listing_after_walk(Err(gone), false).unwrap().is_empty());
    let broken = WikiError::Io { path: "/w".into(), detail: "denied".into() };
    assert!(matches!(listing_after_walk(Err(broken), true), Err(WikiError::Io { .. })));
}
