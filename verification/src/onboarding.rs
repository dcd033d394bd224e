//! First-run setup: the wiki folder and the `/baton` skill.
//!
//! The wiki folder is Baton's own data and is created silently. The skill is
//! written into another tool's configuration, so it is offered, never
//! assumed. Touching the disk is left to the caller; this module holds the
//! shapes of what setup reports and the rules it applies.

use vstd::prelude::*;
use crate::paths::{path_join, rooted};
use crate::text::chars_of;

verus! {

/// What the setup screen needs to know.
#[derive(Debug, Clone)]
pub struct WikiStatus {
    pub root: String,
    /// False on a fresh install: the trigger for showing setup.
    pub root_exists: bool,
    pub has_schema: bool,
    pub page_count: usize,
    pub skills: Vec<SkillHost>,
}

/// One agent tool that could carry the skill.
#[derive(Debug, Clone)]
pub struct SkillHost {
    pub name: String,
    /// The tool's config directory exists, so it is worth offering.
    pub detected: bool,
    /// A `/baton` skill is already installed for it.
    pub installed: bool,
    /// Installed, but the contents differ from the copy this build ships.
    pub outdated: bool,
}

/// What a setup run did.
#[derive(Debug, Clone)]
pub struct SetupReport {
    pub created_root: bool,
    pub created_files: Vec<String>,
    pub installed_skills: Vec<String>,
}

/// `base` joined with `part` as a path: `part` itself when it is absolute.
pub open spec fn join_spec(base: Seq<char>, part: Seq<char>) -> Seq<char> {
    if rooted(part) {
        part
    } else {
        path_join(base, part)
    }
}

pub fn join(base: &str, part: &str) -> (r: String)
    ensures
        r@ == join_spec(base@, part@),
{
    let b = chars_of(base);
    let p = chars_of(part);
    if p.len() > 0 && p[0] == '/' {
        return String::from_str(part);
    }
    let mut out = String::from_str(base);
    if b.len() > 0 && b[b.len() - 1] != '/' {
        out.append("/");
        proof {
            reveal_strlit("/");
        }
    }
    out.append(part);
    out
}

/// Where a tool keeps the skill: `<home>/<dir>/skills/baton/SKILL.md`.
pub open spec fn skill_file_spec(home: Seq<char>, dir: Seq<char>) -> Seq<char> {
    join_spec(join_spec(join_spec(join_spec(home, dir), "skills"@), "baton"@), "SKILL.md"@)
}

pub fn skill_file(home: &str, dir: &str) -> (r: String)
    ensures
        r@ == skill_file_spec(home@, dir@),
{
    let a = join(home, dir);
    let b = join(a.as_str(), "skills");
    let c = join(b.as_str(), "baton");
    join(c.as_str(), "SKILL.md")
}

impl SkillHost {
    /// What setup reports for one tool: `current` is what its skill file
    /// holds, when it could be read, and `shipped` the copy this build
    /// carries. A skill from an older build is worse than none, so an
    /// installed copy that differs is flagged; one that cannot be read is
    /// not.
    pub fn assess(name: &str, detected: bool, installed: bool, current: Option<String>, shipped: &str) -> (r:
        SkillHost)
        ensures
            r.name@ == name@,
            r.detected == detected,
            r.installed == installed,
            r.outdated == (installed && match current.deep_view() {
                Some(c) => c != shipped@,
                None => false,
            }),
    {
        let outdated = installed && match &current {
            Some(c) => *c != String::from_str(shipped),
            None => false,
        };
        SkillHost { name: String::from_str(name), detected, installed, outdated }
    }
}

} // verus!
