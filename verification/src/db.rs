//! What the search index holds, and the decisions that keep it in line with
//! the files.
//!
//! The index is derived from the markdown under the wiki root: none of it is
//! authoritative, and deleting it costs nothing but a re-sweep. Talking to
//! SQLite is left to the caller; this module holds the schema, its
//! fingerprint, the rows' shapes and the rules that decide what to write.

use vstd::prelude::*;
use vstd::utf8::encode_utf8;
use crate::strings::{concat_map, lemma_concat_map_step};
use crate::text::{chars_of, is_ws, push_span, slice_vec, span_is, string_of, trim, trim_span};
use crate::wiki::{ascii_lower, error_message, ErrView, WikiError};

verus! {

/// The index's tables. Fingerprinted below, so any change to this text
/// rebuilds the index from the files.
pub const SCHEMA: &'static str = r#"
CREATE TABLE pages (
  id         TEXT PRIMARY KEY,   -- 'projects/baton/db', from wiki::page_id
  path       TEXT NOT NULL,
  type       TEXT NOT NULL,
  project    TEXT,               -- NULL for pages in concepts/
  status     TEXT NOT NULL,
  updated    TEXT NOT NULL,      -- the frontmatter date, ISO
  title      TEXT NOT NULL,
  body       TEXT NOT NULL,
  mtime      INTEGER NOT NULL,   -- epoch ms, the change gate
  size       INTEGER NOT NULL,
  indexed_at TEXT NOT NULL
);

CREATE INDEX idx_pages_project ON pages(project);

CREATE TABLE sections (
  page_id TEXT NOT NULL REFERENCES pages(id) ON DELETE CASCADE,
  ord     INTEGER NOT NULL,
  heading TEXT NOT NULL,
  body    TEXT NOT NULL,
  PRIMARY KEY (page_id, ord)
);

-- `dst` is deliberately not a foreign key: a link may name a page that does
-- not exist, and finding those is the point.
CREATE TABLE links (
  src TEXT NOT NULL REFERENCES pages(id) ON DELETE CASCADE,
  dst TEXT NOT NULL,
  PRIMARY KEY (src, dst)
);

CREATE INDEX idx_links_dst ON links(dst);

CREATE VIRTUAL TABLE pages_fts USING fts5(id UNINDEXED, title, body);
"#;

/// Bump when the page parser starts producing different output from the same
/// file: the schema stays identical, yet every stored row goes stale.
pub const PARSER_VERSION: u64 = 1;

/// The eight bytes of `v`, least significant first.
pub open spec fn le_bytes(v: u64) -> Seq<u8> {
    Seq::new(8, |i: int| ((v >> (8 * i) as u64) & 0xff) as u8)
}

/// One round of FNV-1a: mix in a byte, then multiply by the prime, wrapping.
pub open spec fn fnv_step(h: u64, b: u8) -> u64 {
    (((h ^ (b as u64)) as nat * 0x100_0000_01b3nat) % 0x1_0000_0000_0000_0000nat) as u64
}

/// FNV-1a over `bytes`.
pub open spec fn fnv1a(bytes: Seq<u8>) -> u64
    decreases bytes.len(),
{
    if bytes.len() == 0 {
        0xcbf2_9ce4_8422_2325u64
    } else {
        fnv_step(fnv1a(bytes.drop_last()), bytes.last())
    }
}

/// What the fingerprint is taken over: the schema's UTF-8, then the parser
/// version's bytes.
pub open spec fn fingerprint_input() -> Seq<u8> {
    encode_utf8(SCHEMA@) + le_bytes(PARSER_VERSION)
}

/// The fingerprint's value.
pub open spec fn fingerprint_spec() -> i32 {
    fnv1a(fingerprint_input()) as i32
}

/// A stable fingerprint of what the index is: its shape plus the parser that
/// filled it, stored in SQLite's `i32` `user_version`. FNV-1a, because a
/// hash that varies per process or per toolchain would rebuild the index on
/// every launch.
pub fn fingerprint() -> (r: i32)
    ensures
        r == fingerprint_spec(),
{
    let bytes = SCHEMA.as_bytes();
    let ghost all = fingerprint_input();
    let mut h: u64 = 0xcbf2_9ce4_8422_2325;
    let mut i: usize = 0;
    while i < bytes.len()
        invariant
            i <= bytes@.len(),
            bytes@ == encode_utf8(SCHEMA@),
            all == fingerprint_input(),
            h == fnv1a(all.take(i as int)),
        decreases bytes.len() - i,
    {
        assert(all.take(i + 1).drop_last() =~= all.take(i as int));
        assert(all[i as int] == bytes@[i as int]);
        h = (h ^ (bytes[i] as u64)).wrapping_mul(0x100_0000_01b3);
        i += 1;
    }
    let n = bytes.len();
    let mut k: usize = 0;
    while k < 8
        invariant
            k <= 8,
            n == encode_utf8(SCHEMA@).len(),
            all == fingerprint_input(),
            h == fnv1a(all.take(n + k)),
        decreases 8 - k,
    {
        let b: u8 = ((PARSER_VERSION >> (8 * k) as u64) & 0xff) as u8;
        assert(all.take(n + k + 1).drop_last() =~= all.take(n + k));
        assert(all[n + k] == le_bytes(PARSER_VERSION)[k as int]);
        h = (h ^ (b as u64)).wrapping_mul(0x100_0000_01b3);
        k += 1;
    }
    assert(all.take(n + 8) =~= all);
    h as i32
}

/// Why an index operation failed.
#[derive(Debug)]
pub enum DbError {
    Sqlite(String),
    Json(String),
    NotFound(String),
    Clipboard(String),
    Path(String),
    Wiki(WikiError),
}

pub enum DbErrView {
    Sqlite(Seq<char>),
    Json(Seq<char>),
    NotFound(Seq<char>),
    Clipboard(Seq<char>),
    Path(Seq<char>),
    Wiki(ErrView),
}

impl View for DbError {
    type V = DbErrView;

    open spec fn view(&self) -> DbErrView {
        match self {
            DbError::Sqlite(s) => DbErrView::Sqlite(s@),
            DbError::Json(s) => DbErrView::Json(s@),
            DbError::NotFound(s) => DbErrView::NotFound(s@),
            DbError::Clipboard(s) => DbErrView::Clipboard(s@),
            DbError::Path(s) => DbErrView::Path(s@),
            DbError::Wiki(e) => DbErrView::Wiki(e@),
        }
    }
}

pub open spec fn db_message(e: DbErrView) -> Seq<char> {
    match e {
        DbErrView::Sqlite(s) => "database error: "@ + s,
        DbErrView::Json(s) => "stored context is not valid JSON: "@ + s,
        DbErrView::NotFound(s) => "no context with id "@ + s,
        DbErrView::Clipboard(s) => "clipboard error: "@ + s,
        DbErrView::Path(s) => "cannot locate the wiki: "@ + s,
        DbErrView::Wiki(w) => error_message(w),
    }
}

impl DbError {
    /// What went wrong, as one line.
    pub fn message(&self) -> (r: String)
        ensures
            r@ == db_message(self@),
    {
        match self {
            DbError::Sqlite(s) => {
                let mut out = String::from_str("database error: ");
                out.append(s.as_str());
                out
            },
            DbError::Json(s) => {
                let mut out = String::from_str("stored context is not valid JSON: ");
                out.append(s.as_str());
                out
            },
            DbError::NotFound(s) => {
                let mut out = String::from_str("no context with id ");
                out.append(s.as_str());
                out
            },
            DbError::Clipboard(s) => {
                let mut out = String::from_str("clipboard error: ");
                out.append(s.as_str());
                out
            },
            DbError::Path(s) => {
                let mut out = String::from_str("cannot locate the wiki: ");
                out.append(s.as_str());
                out
            },
            DbError::Wiki(e) => e.message(),
        }
    }
}

/// What a page looked like on disk when it was indexed: epoch milliseconds
/// and a byte count.
#[derive(Debug, Clone, Copy, PartialEq, Eq, Structural)]
pub struct FileStat {
    pub mtime: i64,
    pub size: i64,
}

/// What a sweep did.
#[derive(Debug, Clone)]
pub struct IndexReport {
    pub indexed: usize,
    pub skipped: usize,
    pub removed: usize,
    /// One entry per page that could not be read. Such a page keeps whatever
    /// it already had in the index, so one broken file never blanks the
    /// search.
    pub errors: Vec<String>,
}

impl Default for IndexReport {
    fn default() -> (r: IndexReport)
        ensures
            r.indexed == 0,
            r.skipped == 0,
            r.removed == 0,
            r.errors@.len() == 0,
    {
        IndexReport { indexed: 0, skipped: 0, removed: 0, errors: Vec::new() }
    }
}

/// One page, as a search lists it.
#[derive(Debug, Clone)]
pub struct PageHit {
    pub id: String,
    pub path: String,
    pub title: String,
    pub page_type: String,
    pub project: Option<String>,
    pub status: String,
    pub updated: String,
    /// Matched text from the body. Empty when the hit did not come from a query.
    pub snippet: String,
}

/// One row per project, for the launcher.
#[derive(Debug, Clone)]
pub struct ProjectHit {
    pub slug: String,
    /// Title of the project's overview page, falling back to the slug.
    pub title: String,
    pub page_count: usize,
    /// Newest `updated` across the project's pages.
    pub updated: String,
}

/// The title a project row shows: its overview's title when that has text,
/// else the slug.
pub open spec fn project_title(slug: Seq<char>, title: Option<Seq<char>>) -> Seq<char> {
    match title {
        Some(t) => if trim(t).len() > 0 {
            t
        } else {
            slug
        },
        None => slug,
    }
}

impl ProjectHit {
    /// A project row from the values a query returns for it: the slug, the
    /// overview's title if any, the page count and the newest date.
    pub fn from_row(slug: String, title: Option<String>, page_count: i64, updated: String) -> (r:
        ProjectHit)
        ensures
            r.slug@ == slug@,
            r.title@ == project_title(slug@, title.deep_view()),
            r.page_count == page_count as usize,
            r.updated@ == updated@,
    {
        let shown = match title {
            Some(t) => {
                let v = chars_of(t.as_str());
                let (a, b) = trim_span(&v, 0, v.len());
                assert(v@.subrange(0, v@.len() as int) =~= v@);
                if a < b {
                    t
                } else {
                    slug.clone()
                }
            },
            None => slug.clone(),
        };
        ProjectHit { slug, title: shown, page_count: page_count as usize, updated }
    }
}

/// The file has not changed since it was indexed: the index holds a row for
/// `id` with this modification time and size.
pub open spec fn unchanged_spec(known: Seq<(String, FileStat)>, id: Seq<char>, file: FileStat) -> bool {
    exists|k: int| 0 <= k < known.len() && #[trigger] known[k].0@ == id && known[k].1 == file
}

/// Whether the sweep may skip `id`, because the index already holds it with
/// this modification time and size.
pub fn unchanged(known: &Vec<(String, FileStat)>, id: &String, file: FileStat) -> (r: bool)
    ensures
        r == unchanged_spec(known@, id@, file),
{
    let mut k: usize = 0;
    while k < known.len()
        invariant
            k <= known@.len(),
            forall|j: int|
                0 <= j < k ==> !(#[trigger] known@[j].0@ == id@ && known@[j].1 == file),
        decreases known.len() - k,
    {
        if known[k].0 == *id && known[k].1 == file {
            return true;
        }
        k += 1;
    }
    false
}

/// The indexed ids whose file the sweep did not see, in index order: their
/// pages are gone, and so are their rows.
pub open spec fn missing_spec(indexed: Seq<Seq<char>>, seen: Seq<Seq<char>>) -> Seq<Seq<char>> {
    indexed.filter(|id: Seq<char>| !seen.contains(id))
}

/// A sweep drops the rows of exactly the pages it did not see: an id it
/// saw, even one whose file then could not be examined, keeps its rows, and
/// every indexed id it did not see goes.
pub proof fn law_only_unseen_pages_are_dropped(indexed: Seq<Seq<char>>, seen: Seq<Seq<char>>, id: Seq<char>)
    ensures
        missing_spec(indexed, seen).contains(id) <==> (indexed.contains(id) && !seen.contains(id)),
{
    let pred = |x: Seq<char>| !seen.contains(x);
    if missing_spec(indexed, seen).contains(id) {
        indexed.lemma_filter_contains_rev(pred, id);
        let k = choose|k: int| 0 <= k < indexed.filter(pred).len() && indexed.filter(pred)[k] == id;
        indexed.lemma_filter_pred(pred, k);
    }
    if indexed.contains(id) && !seen.contains(id) {
        let k = choose|k: int| 0 <= k < indexed.len() && indexed[k] == id;
        indexed.lemma_filter_contains(pred, k);
    }
}

pub fn missing_ids(indexed: &Vec<String>, seen: &Vec<String>) -> (r: Vec<String>)
    ensures
        r.deep_view() == missing_spec(indexed.deep_view(), seen.deep_view()),
{
    let ghost iv = indexed.deep_view();
    let ghost sv = seen.deep_view();
    let ghost pred = |id: Seq<char>| !sv.contains(id);
    let mut out: Vec<String> = Vec::new();
    assert(iv.take(0).filter(pred) =~= Seq::<Seq<char>>::empty()) by {
        reveal(Seq::filter);
    }
    assert(out.deep_view() =~= Seq::<Seq<char>>::empty());
    let mut k: usize = 0;
    while k < indexed.len()
        invariant
            k <= indexed@.len(),
            iv == indexed.deep_view(),
            sv == seen.deep_view(),
            pred == (|id: Seq<char>| !sv.contains(id)),
            out.deep_view() == iv.take(k as int).filter(pred),
        decreases indexed.len() - k,
    {
        proof {
            crate::primer::lemma_filter_take(iv, k as int, pred);
        }
        let hit = crate::lint::listed(seen, &indexed[k]);
        proof {
            if hit {
                let a = choose|a: int| 0 <= a < seen@.len() && #[trigger] seen@[a]@ == indexed@[k as int]@;
                assert(sv[a] == iv[k as int]);
            }
            if sv.contains(iv[k as int]) {
                let a = choose|a: int| 0 <= a < sv.len() && sv[a] == iv[k as int];
                assert(seen@[a]@ == indexed@[k as int]@);
            }
        }
        let ghost before = out.deep_view();
        if !hit {
            out.push(indexed[k].clone());
            assert(out.deep_view() =~= before.push(iv[k as int]));
        }
        k += 1;
    }
    assert(iv.take(iv.len() as int) =~= iv);
    out
}


/// What `char::is_alphanumeric` says of `c`: alphabetic or numeric in
/// Unicode's tables.
pub uninterp spec fn alphanumeric(c: char) -> bool;

/// What `str::to_lowercase` returns for `s`.
pub uninterp spec fn lowercase_of(s: Seq<char>) -> Seq<char>;

/// `char::is_alphanumeric`: named; for ASCII, exactly the letters and digits.
#[verifier::external_body]
fn is_alphanumeric(c: char) -> (r: bool)
    ensures
        r == alphanumeric(c),
        (c as u32) < 128 ==> (r <==> ('a' <= c <= 'z' || 'A' <= c <= 'Z' || '0' <= c <= '9')),
{
    c.is_alphanumeric()
}

/// `str::to_lowercase`: named; an ASCII text has each capital lowered and
/// every other character kept.
#[verifier::external_body]
fn to_lowercase(s: &str) -> (r: String)
    ensures
        r@ == lowercase_of(s@),
        (forall|i: int| 0 <= i < s@.len() ==> (#[trigger] s@[i] as u32) < 128) ==> r@
            == s@.map_values(|c: char| ascii_lower(c)),
{
    s.to_lowercase()
}

/// Every character of `s` is ASCII.
pub open spec fn is_ascii(s: Seq<char>) -> bool {
    forall|i: int| 0 <= i < s.len() ==> (#[trigger] s[i] as u32) < 128
}

/// An ASCII letter or digit.
pub open spec fn ascii_alnum(c: char) -> bool {
    'a' <= c <= 'z' || 'A' <= c <= 'Z' || '0' <= c <= '9'
}

/// `runs_upto` with the ASCII letters and digits as the alphanumerics.
pub open spec fn ascii_runs_upto(s: Seq<char>, n: int) -> (Seq<Seq<char>>, Seq<char>)
    decreases n,
{
    if n <= 0 {
        (seq![], seq![])
    } else {
        let (done, cur) = ascii_runs_upto(s, n - 1);
        if ascii_alnum(s[n - 1]) {
            (done, cur.push(s[n - 1]))
        } else if cur.len() > 0 {
            (done.push(cur), seq![])
        } else {
            (done, cur)
        }
    }
}

/// The maximal runs of ASCII letters and digits of `s`, in order.
pub open spec fn ascii_runs(s: Seq<char>) -> Seq<Seq<char>> {
    let (done, cur) = ascii_runs_upto(s, s.len() as int);
    if cur.len() > 0 {
        done.push(cur)
    } else {
        done
    }
}

/// The FTS5 query for an ASCII text: each run of letters and digits, its
/// capitals lowered, a quoted prefix term; the terms joined by spaces.
pub open spec fn ascii_fts_query(raw: Seq<char>) -> Option<Seq<char>> {
    let ts = ascii_runs(raw);
    if ts.len() == 0 {
        None
    } else {
        Some(
            join_spaced(
                ts.map_values(|t: Seq<char>| "\""@ + t.map_values(|c: char| ascii_lower(c)) + "\"*"@),
            ),
        )
    }
}

proof fn lemma_ascii_runs(s: Seq<char>, n: int)
    requires
        0 <= n <= s.len(),
        is_ascii(s),
        forall|j: int| 0 <= j < n ==> (alphanumeric(#[trigger] s[j]) <==> ascii_alnum(s[j])),
    ensures
        runs_upto(s, n) == ascii_runs_upto(s, n),
        is_ascii(runs_upto(s, n).1),
        forall|k: int| 0 <= k < runs_upto(s, n).0.len() ==> is_ascii(#[trigger] runs_upto(s, n).0[k]),
    decreases n,
{
    if n > 0 {
        lemma_ascii_runs(s, n - 1);
        let (done, cur) = runs_upto(s, n - 1);
        assert(alphanumeric(s[n - 1]) <==> ascii_alnum(s[n - 1]));
        if alphanumeric(s[n - 1]) {
            assert(is_ascii(cur.push(s[n - 1]))) by {
                assert forall|i: int| 0 <= i < cur.push(s[n - 1]).len() implies (#[trigger] cur.push(
                    s[n - 1],
                )[i] as u32) < 128 by {
                    if i < cur.len() {
                        assert(cur.push(s[n - 1])[i] == cur[i]);
                    }
                }
            }
        } else if cur.len() > 0 {
            assert forall|k: int| 0 <= k < done.push(cur).len() implies is_ascii(
                #[trigger] done.push(cur)[k],
            ) by {
                if k < done.len() {
                    assert(done.push(cur)[k] == done[k]);
                }
            }
            assert(is_ascii(Seq::<char>::empty()));
        }
    }
}

/// The runs of alphanumeric characters among `s[..n]` that have ended, and
/// the run still open.
pub open spec fn runs_upto(s: Seq<char>, n: int) -> (Seq<Seq<char>>, Seq<char>)
    decreases n,
{
    if n <= 0 {
        (seq![], seq![])
    } else {
        let (done, cur) = runs_upto(s, n - 1);
        if alphanumeric(s[n - 1]) {
            (done, cur.push(s[n - 1]))
        } else if cur.len() > 0 {
            (done.push(cur), seq![])
        } else {
            (done, cur)
        }
    }
}

/// The maximal runs of alphanumeric characters of `s`, in order: the
/// non-empty pieces of `s` split at every other character.
pub open spec fn alnum_runs(s: Seq<char>) -> Seq<Seq<char>> {
    let (done, cur) = runs_upto(s, s.len() as int);
    if cur.len() > 0 {
        done.push(cur)
    } else {
        done
    }
}

/// A quoted prefix term of FTS5 for `t`.
pub open spec fn fts_term(t: Seq<char>) -> Seq<char> {
    "\""@ + lowercase_of(t) + "\"*"@
}

/// `ts` joined with spaces.
pub open spec fn join_spaced(ts: Seq<Seq<char>>) -> Seq<char>
    decreases ts.len(),
{
    if ts.len() == 0 {
        seq![]
    } else if ts.len() == 1 {
        ts[0]
    } else {
        join_spaced(ts.drop_last()) + " "@ + ts.last()
    }
}

/// The FTS5 query for what a user typed: each run of alphanumerics a quoted
/// prefix term, the terms ANDed. `None` when nothing is left to search for.
pub open spec fn fts_query_spec(raw: Seq<char>) -> Option<Seq<char>> {
    let ts = alnum_runs(raw);
    if ts.len() == 0 {
        None
    } else {
        Some(join_spaced(ts.map_values(|t: Seq<char>| fts_term(t))))
    }
}

fn push_term(out: &mut String, any: bool, run: &Vec<char>)
    ensures
        final(out)@ == old(out)@ + (if any {
            " "@
        } else {
            Seq::<char>::empty()
        }) + fts_term(run@),
        is_ascii(run@) ==> lowercase_of(run@) == run@.map_values(|c: char| ascii_lower(c)),
{
    if any {
        out.append(" ");
    }
    let ghost o = out@;
    let t = string_of(run, 0, run.len());
    assert(run@.subrange(0, run@.len() as int) =~= run@);
    let low = to_lowercase(t.as_str());
    out.append("\"");
    out.append(low.as_str());
    out.append("\"*");
}

/// Turn raw user typing into a safe FTS5 prefix query. Characters such as
/// `"`, `*`, `^`, `-` and `:` are query syntax, so user input never reaches
/// the FTS parser directly.
pub fn to_fts_query(raw: &str) -> (r: Option<String>)
    ensures
        r.deep_view() == fts_query_spec(raw@),
        is_ascii(raw@) ==> r.deep_view() == ascii_fts_query(raw@),
{
    let v = chars_of(raw);
    let mut done: Vec<Vec<char>> = Vec::new();
    let mut cur: Vec<char> = Vec::new();
    let mut i: usize = 0;
    while i < v.len()
        invariant
            i <= v@.len(),
            runs_upto(v@, i as int) == (crate::frontmatter::vv_view(done@), cur@),
            forall|j: int|
                0 <= j < i ==> ((v@[j] as u32) < 128 ==> (alphanumeric(#[trigger] v@[j])
                    <==> ascii_alnum(v@[j]))),
        decreases v.len() - i,
    {
        let ghost d0 = crate::frontmatter::vv_view(done@);
        if is_alphanumeric(v[i]) {
            cur.push(v[i]);
        } else if cur.len() > 0 {
            let mut fresh: Vec<char> = Vec::new();
            core::mem::swap(&mut fresh, &mut cur);
            let ghost c0 = fresh@;
            done.push(fresh);
            assert(crate::frontmatter::vv_view(done@) =~= d0.push(c0));
        }
        i += 1;
    }
    if cur.len() > 0 {
        let ghost d0 = crate::frontmatter::vv_view(done@);
        let ghost c0 = cur@;
        done.push(cur);
        assert(crate::frontmatter::vv_view(done@) =~= d0.push(c0));
    }
    let ghost runs = crate::frontmatter::vv_view(done@);
    assert(runs == alnum_runs(v@));
    proof {
        if is_ascii(raw@) {
            lemma_ascii_runs(v@, v@.len() as int);
            assert(runs =~= ascii_runs(v@));
        }
    }
    if done.len() == 0 {
        return None;
    }
    let ghost terms = runs.map_values(|t: Seq<char>| fts_term(t));
    let mut out = String::new();
    let mut k: usize = 0;
    while k < done.len()
        invariant
            k <= done@.len(),
            runs == crate::frontmatter::vv_view(done@),
            terms == runs.map_values(|t: Seq<char>| fts_term(t)),
            out@ == join_spaced(terms.take(k as int)),
            forall|j: int|
                0 <= j < k ==> (is_ascii(#[trigger] runs[j]) ==> lowercase_of(runs[j])
                    == runs[j].map_values(|c: char| ascii_lower(c))),
        decreases done.len() - k,
    {
        assert(runs[k as int] == done@[k as int]@);
        push_term(&mut out, k > 0, &done[k]);
        proof {
            let t = terms.take(k + 1);
            assert(t.drop_last() =~= terms.take(k as int));
            if k == 0 {
                assert(Seq::<char>::empty() + Seq::<char>::empty() + fts_term(runs[0]) =~= fts_term(
                    runs[0],
                ));
            }
        }
        k += 1;
    }
    assert(terms.take(terms.len() as int) =~= terms);
    proof {
        if is_ascii(raw@) {
            lemma_ascii_runs(v@, v@.len() as int);
            let (d, c) = runs_upto(v@, v@.len() as int);
            assert forall|j: int| 0 <= j < runs.len() implies is_ascii(#[trigger] runs[j]) by {
                if c.len() > 0 && j == d.len() {
                    assert(runs[j] == c);
                } else {
                    assert(runs[j] == d[j]);
                }
            }
            let aterms = runs.map_values(
                |t: Seq<char>| "\""@ + t.map_values(|c: char| ascii_lower(c)) + "\"*"@,
            );
            assert forall|j: int| 0 <= j < runs.len() implies #[trigger] terms[j] == aterms[j] by {
                assert(is_ascii(runs[j]));
            }
            assert(terms =~= aterms);
        }
    }
    Some(out)
}

/// `%` and `_` escaped with a backslash, so they match themselves in LIKE.
pub open spec fn like_escape(s: Seq<char>) -> Seq<char> {
    concat_map(
        s,
        |c: char|
            if c == '%' {
                seq!['\\', '%']
            } else if c == '_' {
                seq!['\\', '_']
            } else {
                seq![c]
            },
    )
}

/// `like_spec` for an ASCII text, whose lowering changes only capitals.
pub open spec fn ascii_like(raw: Seq<char>) -> Option<Seq<char>> {
    let needle = trim(raw).map_values(|c: char| ascii_lower(c));
    if needle.len() == 0 {
        None
    } else {
        Some(seq!['%'] + like_escape(needle) + seq!['%'])
    }
}

/// The LIKE pattern that finds `raw`, trimmed and lowered, anywhere in a
/// name or title. `None` when `raw` is blank, and every project is listed.
pub open spec fn like_spec(raw: Seq<char>) -> Option<Seq<char>> {
    let needle = lowercase_of(trim(raw));
    if needle.len() == 0 {
        None
    } else {
        Some(seq!['%'] + like_escape(needle) + seq!['%'])
    }
}

pub fn like_pattern(raw: &str) -> (r: Option<String>)
    ensures
        r.deep_view() == like_spec(raw@),
        is_ascii(raw@) ==> r.deep_view() == ascii_like(raw@),
{
    let v = chars_of(raw);
    let (a, b) = trim_span(&v, 0, v.len());
    assert(v@.subrange(0, v@.len() as int) =~= v@);
    let t = string_of(&v, a, b);
    proof {
        if is_ascii(raw@) {
            assert forall|i: int| 0 <= i < t@.len() implies (#[trigger] t@[i] as u32) < 128 by {
                assert(t@[i] == v@[a + i]);
            }
        }
    }
    let needle = chars_of(to_lowercase(t.as_str()).as_str());
    if needle.len() == 0 {
        return None;
    }
    let ghost f = |c: char|
        if c == '%' {
            seq!['\\', '%']
        } else if c == '_' {
            seq!['\\', '_']
        } else {
            seq![c]
        };
    let mut out: Vec<char> = Vec::new();
    out.push('%');
    let ghost nv = needle@;
    assert(nv.take(0) =~= Seq::<char>::empty());
    let mut k: usize = 0;
    while k < needle.len()
        invariant
            k <= needle@.len(),
            nv == needle@,
            f == (|c: char|
                if c == '%' {
                    seq!['\\', '%']
                } else if c == '_' {
                    seq!['\\', '_']
                } else {
                    seq![c]
                }),
            out@ == seq!['%'] + concat_map(nv.take(k as int), f),
        decreases needle.len() - k,
    {
        proof {
            lemma_concat_map_step(nv, k as int, f);
        }
        let c = needle[k];
        if c == '%' || c == '_' {
            out.push('\\');
        }
        out.push(c);
        assert(out@ =~= seq!['%'] + concat_map(nv.take(k + 1), f));
        k += 1;
    }
    assert(nv.take(nv.len() as int) =~= nv);
    out.push('%');
    Some(string_of(&out, 0, out.len()))
}


/// The report line for a page whose file could not be examined.
pub open spec fn cannot_read_spec(id: Seq<char>, detail: Seq<char>) -> Seq<char> {
    "cannot read "@ + id + ": "@ + detail
}

pub fn cannot_read(id: &str, detail: &str) -> (r: String)
    ensures
        r@ == cannot_read_spec(id@, detail@),
{
    let mut s = String::from_str("cannot read ");
    s.append(id);
    s.append(": ");
    s.append(detail);
    s
}

/// What a sweep has learnt so far, as plain values.
pub struct SweepView {
    pub skipped: nat,
    pub errors: Seq<Seq<char>>,
    pub seen: Seq<Seq<char>>,
}

/// A sweep of the wiki in progress. The walk, the stats, the reads and the
/// writes are the caller's; this decides what each file needs and keeps the
/// tally the report gives.
pub struct Sweep {
    skipped: usize,
    errors: Vec<String>,
    seen: Vec<String>,
}

impl View for Sweep {
    type V = SweepView;

    closed spec fn view(&self) -> SweepView {
        SweepView {
            skipped: self.skipped as nat,
            errors: self.errors.deep_view(),
            seen: self.seen.deep_view(),
        }
    }
}

impl Sweep {
    #[verifier::type_invariant]
    spec fn counted(self) -> bool {
        self.skipped <= self.seen@.len()
    }

    /// A sweep that has seen nothing.
    pub fn new() -> (r: Sweep)
        ensures
            r@.skipped == 0,
            r@.errors == Seq::<Seq<char>>::empty(),
            r@.seen == Seq::<Seq<char>>::empty(),
    {
        let r = Sweep { skipped: 0, errors: Vec::new(), seen: Vec::new() };
        assert(r@.errors =~= Seq::<Seq<char>>::empty());
        assert(r@.seen =~= Seq::<Seq<char>>::empty());
        r
    }

    /// A file the walk found: its page id and what examining it on disk gave,
    /// its size and time or the error's text. The id counts as seen either
    /// way, so a file that vanishes mid-sweep keeps its rows rather than being
    /// treated as deleted. True when the page has to be read and indexed: it
    /// could be examined and the index does not already hold it unchanged.
    pub fn visit(&mut self, known: &Vec<(String, FileStat)>, id: String, stat: Result<FileStat, String>) -> (read: bool)
        ensures
            final(self)@.seen == old(self)@.seen.push(id@),
            match stat {
                Err(detail) => {
                    &&& !read
                    &&& final(self)@.errors == old(self)@.errors.push(cannot_read_spec(id@, detail@))
                    &&& final(self)@.skipped == old(self)@.skipped
                },
                Ok(file) => {
                    &&& read == !unchanged_spec(known@, id@, file)
                    &&& final(self)@.errors == old(self)@.errors
                    &&& final(self)@.skipped == old(self)@.skipped + if read {
                        0nat
                    } else {
                        1nat
                    }
                },
            },
    {
        let mut old_self = Sweep::new();
        core::mem::swap(&mut old_self, self);
        proof {
            use_type_invariant(&old_self);
        }
        let Sweep { skipped, mut errors, mut seen } = old_self;
        let ghost seen0 = seen.deep_view();
        let ghost errors0 = errors.deep_view();
        let (read, same) = match &stat {
            Err(detail) => {
                errors.push(cannot_read(id.as_str(), detail.as_str()));
                assert(errors.deep_view() =~= errors0.push(cannot_read_spec(id@, detail@)));
                (false, false)
            },
            Ok(file) => {
                let same = unchanged(known, &id, *file);
                (!same, same)
            },
        };
        let ghost id_view = id@;
        seen.push(id);
        assert(seen.deep_view() =~= seen0.push(id_view));
        let count = seen.len();
        assert(skipped < count);
        let skipped = if same {
            skipped + 1
        } else {
            skipped
        };
        *self = Sweep { skipped, errors, seen };
        read
    }

    /// A page that was read but could not be parsed: its message joins the
    /// report, and the page keeps what it already had in the index.
    pub fn unreadable(&mut self, message: String)
        ensures
            final(self)@.errors == old(self)@.errors.push(message@),
            final(self)@.skipped == old(self)@.skipped,
            final(self)@.seen == old(self)@.seen,
    {
        let mut old_self = Sweep::new();
        core::mem::swap(&mut old_self, self);
        proof {
            use_type_invariant(&old_self);
        }
        let Sweep { skipped, mut errors, seen } = old_self;
        let ghost errors0 = errors.deep_view();
        errors.push(message);
        assert(errors.deep_view() =~= errors0.push(message@));
        *self = Sweep { skipped, errors, seen };
    }

    /// The ids the index holds whose file the sweep did not see, in index
    /// order: their pages are gone, and their rows go too.
    pub fn gone(&self, indexed: &Vec<String>) -> (r: Vec<String>)
        ensures
            r.deep_view() == missing_spec(indexed.deep_view(), self@.seen),
    {
        missing_ids(indexed, &self.seen)
    }

    /// The report, once `indexed` pages were written and `removed` rows of
    /// vanished pages dropped.
    pub fn finish(self, indexed: usize, removed: usize) -> (r: IndexReport)
        ensures
            r.indexed == indexed,
            r.skipped == self@.skipped,
            r.removed == removed,
            r.errors.deep_view() == self@.errors,
    {
        IndexReport { indexed, skipped: self.skipped, removed, errors: self.errors }
    }
}

/// The tables `SCHEMA` creates.
pub open spec fn expected_table(n: Seq<char>) -> bool {
    n == "pages"@ || n == "sections"@ || n == "links"@ || n == "pages_fts"@
}

/// When a table is dropped in a rebuild: the search table first, then the
/// tables that point at `pages`, then anything else, then `pages` itself.
pub open spec fn drop_rank(n: Seq<char>) -> int {
    if n == "pages_fts"@ {
        0
    } else if n == "links"@ || n == "sections"@ {
        1
    } else if n == "pages"@ {
        3
    } else {
        2
    }
}

pub open spec fn of_rank(tables: Seq<Seq<char>>, k: int) -> Seq<Seq<char>> {
    tables.filter(|n: Seq<char>| drop_rank(n) == k)
}

/// `tables` in the order a rebuild drops them: by rank, and tables of one
/// rank in the order given.
pub open spec fn drop_order(tables: Seq<Seq<char>>) -> Seq<Seq<char>> {
    of_rank(tables, 0) + of_rank(tables, 1) + of_rank(tables, 2) + of_rank(tables, 3)
}

/// Whether the index database can be kept as it is: it has tables, was made
/// with this fingerprint, and holds no table the schema does not create.
pub open spec fn keep_schema(stored: i32, tables: Seq<Seq<char>>) -> bool {
    tables.len() > 0 && stored == fingerprint_spec() && forall|i: int|
        0 <= i < tables.len() ==> expected_table(#[trigger] tables[i])
}

/// What to do with the index database at open.
#[derive(Debug)]
pub enum SchemaAction {
    /// It matches the schema and the parser: keep it.
    Keep,
    /// Drop these tables, in this order, then create the schema afresh.
    Rebuild { drop: Vec<String> },
}

fn is_expected_table(n: &String) -> (r: bool)
    ensures
        r == expected_table(n@),
{
    let v = chars_of(n.as_str());
    assert(v@.subrange(0, v@.len() as int) =~= v@);
    span_is(&v, 0, v.len(), "pages") || span_is(&v, 0, v.len(), "sections") || span_is(
        &v,
        0,
        v.len(),
        "links",
    ) || span_is(&v, 0, v.len(), "pages_fts")
}

fn drop_rank_exec(n: &String) -> (r: u8)
    ensures
        r as int == drop_rank(n@),
{
    let v = chars_of(n.as_str());
    assert(v@.subrange(0, v@.len() as int) =~= v@);
    if span_is(&v, 0, v.len(), "pages_fts") {
        0
    } else if span_is(&v, 0, v.len(), "links") || span_is(&v, 0, v.len(), "sections") {
        1
    } else if span_is(&v, 0, v.len(), "pages") {
        3
    } else {
        2
    }
}

fn push_of_rank(out: &mut Vec<String>, tables: &Vec<String>, k: u8)
    ensures
        final(out).deep_view() == old(out).deep_view() + of_rank(tables.deep_view(), k as int),
{
    let ghost tv = tables.deep_view();
    let ghost o = out.deep_view();
    let ghost pred = |n: Seq<char>| drop_rank(n) == k as int;
    assert(tv.take(0).filter(pred) =~= Seq::<Seq<char>>::empty()) by {
        reveal(Seq::filter);
    }
    assert(out.deep_view() =~= o + tv.take(0).filter(pred));
    let mut i: usize = 0;
    while i < tables.len()
        invariant
            i <= tables@.len(),
            tv == tables.deep_view(),
            pred == (|n: Seq<char>| drop_rank(n) == k as int),
            out.deep_view() == o + tv.take(i as int).filter(pred),
        decreases tables.len() - i,
    {
        proof {
            crate::primer::lemma_filter_take(tv, i as int, pred);
        }
        let ghost before = out.deep_view();
        if drop_rank_exec(&tables[i]) == k {
            out.push(tables[i].clone());
            assert(out.deep_view() =~= before.push(tv[i as int]));
        }
        i += 1;
    }
    assert(tv.take(tv.len() as int) =~= tv);
}

/// What to do with an index database made with fingerprint `stored` and
/// holding `tables`. A mismatch rebuilds rather than migrates: the index is
/// derived from the files, so rebuilding costs one sweep.
pub fn schema_action(stored: i32, tables: &Vec<String>) -> (r: SchemaAction)
    ensures
        (r is Keep) <==> keep_schema(stored, tables.deep_view()),
        r matches SchemaAction::Rebuild { drop } ==> drop.deep_view() == drop_order(tables.deep_view()),
{
    let ghost tv = tables.deep_view();
    let mut orphans = false;
    let mut i: usize = 0;
    while i < tables.len()
        invariant
            i <= tables@.len(),
            tv == tables.deep_view(),
            !orphans ==> forall|j: int| 0 <= j < i ==> expected_table(#[trigger] tv[j]),
            orphans ==> exists|j: int| 0 <= j < tv.len() && !expected_table(#[trigger] tv[j]),
        decreases tables.len() - i,
    {
        if !is_expected_table(&tables[i]) {
            assert(!expected_table(tv[i as int]));
            orphans = true;
        }
        i += 1;
    }
    if tables.len() > 0 && stored == fingerprint() && !orphans {
        return SchemaAction::Keep;
    }
    let mut drop: Vec<String> = Vec::new();
    assert(drop.deep_view() =~= Seq::<Seq<char>>::empty());
    push_of_rank(&mut drop, tables, 0);
    push_of_rank(&mut drop, tables, 1);
    push_of_rank(&mut drop, tables, 2);
    push_of_rank(&mut drop, tables, 3);
    assert(drop.deep_view() =~= drop_order(tv));
    SchemaAction::Rebuild { drop }
}

/// The wiki's listing once the walk is done: a walk that failed because the
/// wiki folder is gone lists nothing, so deleting the folder empties the
/// index; any other failure stands.
pub fn listing_after_walk(listed: Result<Vec<String>, WikiError>, root_is_dir: bool) -> (r: Result<
    Vec<String>,
    WikiError,
>)
    ensures
        match listed {
            Ok(v) => r == Ok::<Vec<String>, WikiError>(v),
            Err(e) => if root_is_dir {
                r == Err::<Vec<String>, WikiError>(e)
            } else {
                r matches Ok(v) && v@.len() == 0
            },
        },
{
    match listed {
        Ok(v) => Ok(v),
        Err(e) => if root_is_dir {
            Err(e)
        } else {
            Ok(Vec::new())
        },
    }
}

} // verus!
