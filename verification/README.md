# baton

Baton keeps a developer's working context in a wiki of plain markdown files
(`~/Baton`), indexes it for search, and composes a brief for a fresh model
session from the pages of one project.

This crate is the part of Baton that decides things, written in Verus and
proved against its contracts:

- `wiki`, `frontmatter`, `paths`, `text` — reading one page: the frontmatter
  schema, sections, `[[links]]`, page ids and the files they name, and which
  entries of the wiki folder are pages.
- `lint` — the structural checks a page must pass, and the report of findings.
- `index_md` — the derived `index.md`, every page grouped by project and type.
- `primer` — the brief for a project under a token budget.
- `db` — the search index's schema fingerprint, query building, and the
  decisions of a sweep of the wiki into the index.
- `watcher`, `notice`, `launcher`, `settings`, `remove`, `commands`,
  `onboarding`, `update`, `ai`, `context`, `date`, `strings` — the smaller
  rules the application applies.

Laws that span functions are public proof functions named `law_*`.

`app/` is the ordinary Rust around the library: the folder walk, the SQLite
index, the file watcher, the trash, settings on disk and the request bodies
for the model service. It makes no decision the library does not make.
