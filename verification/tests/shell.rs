use baton::ai::{api_error, extract_message, handoff_text, text_of, update_message, AiError, Reply, ReplyBlock};
use baton::commands::{page_file, project_for};
use baton::launcher::in_blur_grace;
use baton::onboarding::{join, skill_file, SkillHost};
use baton::settings::{Settings, DEFAULT_SHORTCUT};
use baton::update::{says, Say, UpdateEvent};
use baton::wiki::parse;

#[test]
fn the_default_shortcut_is_the_summon_chord() {
    assert_eq!(Settings::default().shortcut, DEFAULT_SHORTCUT);
    assert_eq!(DEFAULT_SHORTCUT, "CmdOrCtrl+Shift+Space");
}

#[test]
fn a_blur_right_after_a_show_is_not_trusted() {
    assert!(in_blur_grace(1000, 900));
    assert!(!in_blur_grace(1400, 1000));
    assert!(in_blur_grace(1399, 1000));
    assert!(in_blur_grace(5, 10), "a clock that reads earlier counts as no time at all");
}

fn block(kind: Option<&str>, text: Option<&str>) -> ReplyBlock {
    ReplyBlock { kind: kind.map(String::from), text: text.map(String::from) }
}

#[test]
fn refusal_is_an_error_not_an_empty_result() {
    let res = Reply {
        stop_reason: Some("refusal".into()),
        category: Some("cyber".into()),
        content: Some(vec![]),
    };
    match text_of(&res) {
        Err(AiError::Refused(d)) => assert!(d.contains("cyber")),
        other => panic!("expected refusal, got {other:?}"),
    }
}

#[test]
fn text_is_read_from_the_text_block() {
    let res = Reply {
        stop_reason: Some("end_turn".into()),
        category: None,
        content: Some(vec![block(Some("thinking"), None), block(Some("text"), Some("{\"goal\":\"g\"}"))]),
    };
    assert_eq!(text_of(&res).unwrap(), "{\"goal\":\"g\"}");
    let none = Reply { stop_reason: None, category: None, content: None };
    assert!(matches!(text_of(&none), Err(AiError::Shape(_))));
    let handed = Reply {
        stop_reason: None,
        category: None,
        content: Some(vec![block(Some("text"), Some("  Continue from here.\n"))]),
    };
    assert_eq!(handoff_text(&handed).unwrap(), "Continue from here.");
}

#[test]
fn messages_to_the_model_wrap_their_parts() {
    assert_eq!(extract_message("hi"), "<conversation>\nhi\n</conversation>");
    assert_eq!(
        update_message("n", "{}", "c"),
        "<existing-context name=\"n\">\n{}\n</existing-context>\n\n<new-conversation>\nc\n</new-conversation>"
    );
    assert_eq!(api_error(429, None, Some("Too Many Requests".into())).message(), "service error (429): Too Many Requests");
    assert_eq!(api_error(500, Some("boom".into()), None).message(), "service error (500): boom");
    assert_eq!(api_error(500, None, None).message(), "service error (500): error");
}

#[test]
fn update_outcomes_speak_only_when_asked() {
    assert!(matches!(says(&UpdateEvent::Current, false), Say::Nothing));
    assert!(matches!(says(&UpdateEvent::Current, true), Say::Notice(s) if s == "Baton is up to date."));
    assert!(matches!(says(&UpdateEvent::CheckFailed("offline".into()), false), Say::Log(_)));
    assert!(matches!(
        says(&UpdateEvent::Found("1.2.0".into()), false),
        Say::Notice(s) if s == "Baton 1.2.0 is downloading."
    ));
}

#[test]
fn skills_live_under_each_tools_config_directory() {
    assert_eq!(skill_file("/home/u", ".agent"), "/home/u/.agent/skills/baton/SKILL.md");
    assert_eq!(join("/a/", "b"), "/a/b");
    assert_eq!(join("/a", "/b"), "/b");
    let stale = SkillHost::assess("Agent", true, true, Some("# old".into()), "# new");
    assert!(stale.outdated);
    let fresh = SkillHost::assess("Agent", true, true, Some("# new".into()), "# new");
    assert!(!fresh.outdated);
    let unreadable = SkillHost::assess("Codex", true, true, None, "# new");
    assert!(!unreadable.outdated);
}

#[test]
fn a_brief_defaults_to_the_project_touched_last() {
    let text = "---\ntype: project\nproject: baton\nstatus: current\nupdated: 2026-08-22\nsources: []\n---\n\n# B\n";
    let pages = vec![parse("/w", "/w/projects/baton/overview.md", text).unwrap()];
    assert_eq!(project_for(Some("other".into()), &pages).unwrap(), "other");
    assert_eq!(project_for(Some("  ".into()), &pages).unwrap(), "baton");
    assert_eq!(project_for(None, &pages).unwrap(), "baton");
    assert!(project_for(None, &[]).is_err());
    assert_eq!(page_file("/w", "a/b").unwrap(), "/w/a/b.md");
    assert!(page_file("/w", "../x").is_err());
}
