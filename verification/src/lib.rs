use vstd::prelude::*;

pub mod text;
pub mod paths;
pub mod date;
pub mod frontmatter;
pub mod wiki;
pub mod strings;
pub mod lint;
pub mod index_md;
pub mod primer;
pub mod context;
pub mod watcher;
pub mod notice;
pub mod launcher;
pub mod settings;
pub mod db;
pub mod remove;
pub mod commands;
pub mod ai;
pub mod onboarding;
pub mod update;

verus! {
}
