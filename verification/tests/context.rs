use baton::context::{Context, ContextBody};

fn sample() -> Context {
    Context {
        id: "1".into(),
        name: "Auth migration".into(),
        body: ContextBody {
            goal: Some("Replace auth with OAuth.".into()),
            decisions: vec!["Don't use NextAuth.".into()],
            open_issues: vec!["  ".into()],
            ..Default::default()
        },
        created_at: "2026-08-20T00:00:00Z".into(),
        updated_at: "2026-08-20T00:00:00Z".into(),
    }
}

#[test]
fn renders_only_populated_sections() {
    let md = sample().to_markdown();
    assert!(md.starts_with("# Auth migration\n"));
    assert!(md.contains("## Goal\nReplace auth with OAuth."));
    assert!(md.contains("## Decisions\n- Don't use NextAuth."));
    assert!(!md.contains("## Current State"));
    assert!(!md.contains("## Open Issues"));
    assert!(!md.contains("## Next Steps"));
}

#[test]
fn the_markdown_reads_exactly() {
    let mut c = sample();
    c.name = "  Auth migration  ".into();
    c.body.current_state = Some("  Halfway.  ".into());
    c.body.next_steps = vec!["".into(), " Debug the callback ".into(), "Ship".into()];
    assert_eq!(
        c.to_markdown(),
        "# Auth migration\n\n## Goal\nReplace auth with OAuth.\n\n## Current State\nHalfway.\n\n## Decisions\n- Don't use NextAuth.\n\n## Next Steps\n- Debug the callback\n- Ship\n"
    );
}
