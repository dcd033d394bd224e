//! The frontmatter block at the top of a page.
//!
//! The schema allows a small subset of YAML: flat `key: value` pairs whose
//! values are scalars, `null`, flow sequences (`[a, b]`) or block sequences.
//! A full YAML parser would accept anchors, nested maps and block scalars, none
//! of which a page may contain, and would turn a typo into a valid document
//! instead of an error. Unknown keys are ignored rather than rejected, so a
//! human addition does not break the read.

use vstd::prelude::*;
use crate::date::{parsed_iso_date, Date};
use crate::wiki::{ErrView, WikiError};
use crate::text::{
    chars_of, lemma_next_char, next_char, find_char_from, push_span, skip_ws_back, slice_vec, span_is,
    string_of, trim, trim_end, trim_span,
};

verus! {

/// One frontmatter value: a scalar, or a list of scalars.
pub enum Val {
    Scalar(Seq<char>),
    List(Seq<Seq<char>>),
}

/// Drop a trailing ` # comment` from a value, scanning from index `i` with
/// `quote` the quote character currently open. A `#` inside quotes is part of
/// the value, and a `#` counts only at the start or after a space.
pub open spec fn strip_comment_from(v: Seq<char>, i: int, quote: Option<char>) -> Seq<char>
    decreases v.len() - i,
{
    if i < 0 || i >= v.len() {
        v
    } else {
        let c = v[i];
        if (c == '"' || c == '\'') && quote == Some(c) {
            strip_comment_from(v, i + 1, None)
        } else if (c == '"' || c == '\'') && quote is None {
            strip_comment_from(v, i + 1, Some(c))
        } else if c == '#' && quote is None && (i == 0 || v[i - 1] == ' ') {
            trim_end(v.subrange(0, i))
        } else {
            strip_comment_from(v, i + 1, quote)
        }
    }
}

pub open spec fn strip_comment(v: Seq<char>) -> Seq<char> {
    strip_comment_from(v, 0, None)
}

/// A trimmed value without one pair of matching surrounding quotes.
pub open spec fn unquote(v: Seq<char>) -> Seq<char> {
    let t = trim(v);
    if t.len() >= 2 && t[0] == '"' && t.last() == '"' {
        t.subrange(1, t.len() - 1)
    } else if t.len() >= 2 && t[0] == '\'' && t.last() == '\'' {
        t.subrange(1, t.len() - 1)
    } else {
        t
    }
}

/// The items of a flow sequence's inner text from index `i` on: split at
/// commas, trimmed, unquoted, empty ones dropped.
pub open spec fn flow_from(s: Seq<char>, i: int, acc: Seq<Seq<char>>) -> Seq<Seq<char>>
    decreases s.len() - i,
{
    if i < 0 || i > s.len() {
        acc
    } else {
        let e = next_char(s, i, ',');
        proof {
            lemma_next_char(s, i, ',');
        }
        let u = unquote(trim(s.subrange(i, e)));
        let acc2 = if u.len() > 0 {
            acc.push(u)
        } else {
            acc
        };
        if e >= s.len() {
            acc2
        } else {
            flow_from(s, e + 1, acc2)
        }
    }
}

pub open spec fn flow_items(inner: Seq<char>) -> Seq<Seq<char>> {
    flow_from(inner, 0, seq![])
}

/// The trimmed lines of a text from index `i` on.
pub open spec fn trimmed_lines_from(s: Seq<char>, i: int) -> Seq<Seq<char>>
    decreases s.len() - i,
{
    if i < 0 || i >= s.len() {
        seq![]
    } else {
        let e = next_char(s, i, '\n');
        proof {
            lemma_next_char(s, i, '\n');
        }
        let here = seq![trim(s.subrange(i, e))];
        if e >= s.len() {
            here
        } else {
            here + trimmed_lines_from(s, e + 1)
        }
    }
}

/// A line that a value-less key reads past: blank, or a `#` comment.
pub open spec fn skippable(line: Seq<char>) -> bool {
    line.len() == 0 || line[0] == '#'
}

/// A block sequence: the `- item` lines from `j` on, blank and comment lines
/// skipped. Returns the items and the index of the first line not taken.
pub open spec fn block_from(tl: Seq<Seq<char>>, j: int, items: Seq<Seq<char>>) -> (
    Seq<Seq<char>>,
    int,
)
    decreases tl.len() - j,
{
    if j < 0 || j >= tl.len() {
        (items, j)
    } else {
        let n = tl[j];
        if skippable(n) {
            block_from(tl, j + 1, items)
        } else if n.len() >= 2 && n[0] == '-' && n[1] == ' ' {
            block_from(
                tl,
                j + 1,
                items.push(unquote(strip_comment(trim(n.subrange(2, n.len() as int))))),
            )
        } else {
            (items, j)
        }
    }
}

pub proof fn lemma_block_from(tl: Seq<Seq<char>>, j: int, items: Seq<Seq<char>>)
    requires
        0 <= j <= tl.len(),
    ensures
        j <= block_from(tl, j, items).1 <= tl.len(),
    decreases tl.len() - j,
{
    if j < tl.len() {
        let n = tl[j];
        if skippable(n) {
            lemma_block_from(tl, j + 1, items);
        } else if n.len() >= 2 && n[0] == '-' && n[1] == ' ' {
            lemma_block_from(
                tl,
                j + 1,
                items.push(unquote(strip_comment(trim(n.subrange(2, n.len() as int))))),
            );
        }
    }
}

/// The value text after a flow sequence's `[`, less a closing `]`.
pub open spec fn flow_inner(value: Seq<char>) -> Seq<char> {
    let inner0 = value.subrange(1, value.len() as int);
    if inner0.len() > 0 && inner0.last() == ']' {
        inner0.drop_last()
    } else {
        inner0
    }
}

/// The `key: value` fields of the trimmed lines from `i` on, appended to
/// `acc`; or the first line that is neither blank, a comment, nor `key: value`.
pub open spec fn fields_from(tl: Seq<Seq<char>>, i: int, acc: Seq<(Seq<char>, Val)>) -> Result<
    Seq<(Seq<char>, Val)>,
    Seq<char>,
>
    decreases tl.len() - i,
{
    if i < 0 || i >= tl.len() {
        Ok(acc)
    } else {
        let line = tl[i];
        if skippable(line) {
            fields_from(tl, i + 1, acc)
        } else {
            let k = next_char(line, 0, ':');
            if k >= line.len() {
                Err(line)
            } else {
                let key = trim(line.subrange(0, k));
                let value = strip_comment(trim(line.subrange(k + 1, line.len() as int)));
                if value.len() == 0 {
                    let (items, j) = block_from(tl, i + 1, seq![]);
                    proof {
                        lemma_block_from(tl, i + 1, seq![]);
                    }
                    fields_from(tl, j, acc.push((key, Val::List(items))))
                } else if value[0] == '[' {
                    fields_from(tl, i + 1, acc.push((key, Val::List(flow_items(flow_inner(value))))))
                } else {
                    fields_from(tl, i + 1, acc.push((key, Val::Scalar(unquote(value)))))
                }
            }
        }
    }
}

/// The first field named `key`.
pub open spec fn find_field(fields: Seq<(Seq<char>, Val)>, key: Seq<char>) -> Option<Val>
    decreases fields.len(),
{
    if fields.len() == 0 {
        None
    } else if fields[0].0 == key {
        Some(fields[0].1)
    } else {
        find_field(fields.drop_first(), key)
    }
}

} // verus!

verus! {

pub open spec fn vv_view(v: Seq<Vec<char>>) -> Seq<Seq<char>> {
    v.map_values(|x: Vec<char>| x@)
}

enum FieldVal {
    Scalar(Vec<char>),
    List(Vec<Vec<char>>),
}

struct Field {
    key: Vec<char>,
    val: FieldVal,
}

spec fn val_view(v: FieldVal) -> Val {
    match v {
        FieldVal::Scalar(s) => Val::Scalar(s@),
        FieldVal::List(items) => Val::List(vv_view(items@)),
    }
}

spec fn fields_view(fs: Seq<Field>) -> Seq<(Seq<char>, Val)> {
    fs.map_values(|f: Field| (f.key@, val_view(f.val)))
}

fn strip_comment_vec(v: &Vec<char>) -> (r: Vec<char>)
    ensures
        r@ == strip_comment(v@),
{
    let mut quote: Option<char> = None;
    let mut i: usize = 0;
    while i < v.len()
        invariant
            i <= v@.len(),
            strip_comment_from(v@, i as int, quote) == strip_comment(v@),
        decreases v.len() - i,
    {
        let c = v[i];
        if (c == '"' || c == '\'') && quote == Some(c) {
            quote = None;
        } else if (c == '"' || c == '\'') && quote.is_none() {
            quote = Some(c);
        } else if c == '#' && quote.is_none() && (i == 0 || v[i - 1] == ' ') {
            let e = skip_ws_back(v, 0, i);
            return slice_vec(v, 0, e);
        }
        i += 1;
    }
    assert(v@.subrange(0, v@.len() as int) =~= v@);
    slice_vec(v, 0, v.len())
}

fn unquote_vec(v: &Vec<char>) -> (r: Vec<char>)
    ensures
        r@ == unquote(v@),
{
    let (a, b) = trim_span(v, 0, v.len());
    assert(v@.subrange(0, v@.len() as int) =~= v@);
    let t = slice_vec(v, a, b);
    let n = t.len();
    if n >= 2 && t[0] == '"' && t[n - 1] == '"' {
        slice_vec(&t, 1, n - 1)
    } else if n >= 2 && t[0] == '\'' && t[n - 1] == '\'' {
        slice_vec(&t, 1, n - 1)
    } else {
        assert(t@.subrange(0, n as int) =~= t@);
        slice_vec(&t, 0, n)
    }
}

fn flow_items_vec(s: &Vec<char>) -> (r: Vec<Vec<char>>)
    ensures
        vv_view(r@) == flow_items(s@),
{
    let mut out: Vec<Vec<char>> = Vec::new();
    let mut i: usize = 0;
    assert(vv_view(out@) =~= Seq::<Seq<char>>::empty());
    loop
        invariant
            i <= s@.len(),
            flow_from(s@, i as int, vv_view(out@)) == flow_items(s@),
        decreases s@.len() - i,
    {
        let e = find_char_from(s, i, ',');
        let (a, b) = trim_span(s, i, e);
        let piece = slice_vec(s, a, b);
        let u = unquote_vec(&piece);
        if u.len() > 0 {
            let ghost before = out@;
            out.push(u);
            assert(vv_view(out@) =~= vv_view(before).push(u@));
        }
        if e >= s.len() {
            return out;
        }
        i = e + 1;
    }
}

fn trimmed_lines(s: &Vec<char>) -> (r: Vec<Vec<char>>)
    ensures
        vv_view(r@) == trimmed_lines_from(s@, 0),
{
    let mut out: Vec<Vec<char>> = Vec::new();
    let mut i: usize = 0;
    assert(vv_view(out@) =~= Seq::<Seq<char>>::empty());
    while i < s.len()
        invariant
            i <= s@.len(),
            vv_view(out@) + trimmed_lines_from(s@, i as int) == trimmed_lines_from(s@, 0),
        decreases s@.len() - i,
    {
        let e = find_char_from(s, i, '\n');
        let (a, b) = trim_span(s, i, e);
        let line = slice_vec(s, a, b);
        let ghost before = out@;
        out.push(line);
        assert(vv_view(out@) =~= vv_view(before).push(line@));
        if e >= s.len() {
            assert(vv_view(out@) + Seq::<Seq<char>>::empty() =~= vv_view(out@));
            assert(vv_view(out@) =~= vv_view(before) + trimmed_lines_from(s@, i as int));
            i = s.len();
        } else {
            assert(vv_view(out@) + trimmed_lines_from(s@, e + 1) =~= vv_view(before)
                + trimmed_lines_from(s@, i as int));
            i = e + 1;
        }
    }
    assert(vv_view(out@) + Seq::<Seq<char>>::empty() =~= vv_view(out@));
    out
}

fn block(tl: &Vec<Vec<char>>, start: usize) -> (r: (Vec<Vec<char>>, usize))
    requires
        start <= tl@.len(),
    ensures
        (vv_view(r.0@), r.1 as int) == block_from(vv_view(tl@), start as int, seq![]),
{
    let mut items: Vec<Vec<char>> = Vec::new();
    let mut j = start;
    assert(vv_view(items@) =~= Seq::<Seq<char>>::empty());
    while j < tl.len()
        invariant
            start <= j <= tl@.len(),
            block_from(vv_view(tl@), j as int, vv_view(items@)) == block_from(
                vv_view(tl@),
                start as int,
                seq![],
            ),
        decreases tl.len() - j,
    {
        let n = &tl[j];
        if n.len() == 0 || n[0] == '#' {
            j += 1;
        } else if n.len() >= 2 && n[0] == '-' && n[1] == ' ' {
            let (a, b) = trim_span(n, 2, n.len());
            let t = slice_vec(n, a, b);
            let sc = strip_comment_vec(&t);
            let u = unquote_vec(&sc);
            let ghost before = items@;
            items.push(u);
            assert(vv_view(items@) =~= vv_view(before).push(u@));
            j += 1;
        } else {
            return (items, j);
        }
    }
    (items, j)
}

fn collect_fields(tl: &Vec<Vec<char>>) -> (r: Result<Vec<Field>, Vec<char>>)
    ensures
        match r {
            Ok(fs) => fields_from(vv_view(tl@), 0, seq![]) == Ok::<_, Seq<char>>(fields_view(fs@)),
            Err(line) => fields_from(vv_view(tl@), 0, seq![]) == Err::<Seq<(Seq<char>, Val)>, _>(line@),
        },
{
    let mut fields: Vec<Field> = Vec::new();
    let mut i: usize = 0;
    assert(fields_view(fields@) =~= Seq::<(Seq<char>, Val)>::empty());
    while i < tl.len()
        invariant
            i <= tl@.len(),
            fields_from(vv_view(tl@), i as int, fields_view(fields@)) == fields_from(
                vv_view(tl@),
                0,
                seq![],
            ),
        decreases tl.len() - i,
    {
        let line = &tl[i];
        if line.len() == 0 || line[0] == '#' {
            i += 1;
        } else {
            let k = find_char_from(line, 0, ':');
            if k >= line.len() {
                assert(line@.subrange(0, line@.len() as int) =~= line@);
                assert(vv_view(tl@)[i as int] == line@);
                return Err(slice_vec(line, 0, line.len()));
            }
            let (a, b) = trim_span(line, 0, k);
            let key = slice_vec(line, a, b);
            let (c, d) = trim_span(line, k + 1, line.len());
            let raw = slice_vec(line, c, d);
            let value = strip_comment_vec(&raw);
            let ghost before = fields@;
            if value.len() == 0 {
                let (items, j) = block(tl, i + 1);
                proof {
                    lemma_block_from(vv_view(tl@), i + 1, seq![]);
                }
                let f = Field { key, val: FieldVal::List(items) };
                fields.push(f);
                assert(fields_view(fields@) =~= fields_view(before).push(
                    (f.key@, val_view(f.val)),
                ));
                i = j;
            } else if value[0] == '[' {
                let inner0 = slice_vec(&value, 1, value.len());
                let inner = if inner0.len() > 0 && inner0[inner0.len() - 1] == ']' {
                    slice_vec(&inner0, 0, inner0.len() - 1)
                } else {
                    assert(inner0@.subrange(0, inner0@.len() as int) =~= inner0@);
                    slice_vec(&inner0, 0, inner0.len())
                };
                assert(inner@ == flow_inner(value@));
                let items = flow_items_vec(&inner);
                let f = Field { key, val: FieldVal::List(items) };
                fields.push(f);
                assert(fields_view(fields@) =~= fields_view(before).push(
                    (f.key@, val_view(f.val)),
                ));
                i += 1;
            } else {
                let u = unquote_vec(&value);
                let f = Field { key, val: FieldVal::Scalar(u) };
                fields.push(f);
                assert(fields_view(fields@) =~= fields_view(before).push(
                    (f.key@, val_view(f.val)),
                ));
                i += 1;
            }
        }
    }
    Ok(fields)
}

fn find_field_exec<'a>(fields: &'a Vec<Field>, key: &str) -> (r: Option<&'a FieldVal>)
    ensures
        match r {
            Some(v) => find_field(fields_view(fields@), key@) == Some(val_view(*v)),
            None => find_field(fields_view(fields@), key@) is None,
        },
{
    let mut k: usize = 0;
    assert(fields_view(fields@).subrange(0, fields@.len() as int) =~= fields_view(fields@));
    while k < fields.len()
        invariant
            k <= fields@.len(),
            find_field(fields_view(fields@).subrange(k as int, fields@.len() as int), key@)
                == find_field(fields_view(fields@), key@),
        decreases fields.len() - k,
    {
        let ghost rest = fields_view(fields@).subrange(k as int, fields@.len() as int);
        assert(rest.drop_first() =~= fields_view(fields@).subrange(k + 1, fields@.len() as int));
        if span_is(&fields[k].key, 0, fields[k].key.len(), key) {
            assert(fields[k as int].key@.subrange(0, fields[k as int].key@.len() as int) =~= fields[k as int].key@);
            return Some(&fields[k].val);
        }
        assert(fields[k as int].key@.subrange(0, fields[k as int].key@.len() as int) =~= fields[k as int].key@);
        k += 1;
    }
    None
}

} // verus!

verus! {

#[derive(Debug, Clone, Copy, PartialEq, Eq, Structural)]
pub enum PageType {
    Project,
    Decision,
    Open,
    Attempt,
    Component,
    Gotcha,
}

#[derive(Debug, Clone, Copy, PartialEq, Eq, Structural)]
pub enum Status {
    Current,
    Superseded,
    Abandoned,
    Stale,
}

/// The schema's name for a page type.
pub open spec fn page_type_name(t: PageType) -> Seq<char> {
    match t {
        PageType::Project => "project"@,
        PageType::Decision => "decision"@,
        PageType::Open => "open"@,
        PageType::Attempt => "attempt"@,
        PageType::Component => "component"@,
        PageType::Gotcha => "gotcha"@,
    }
}

/// The schema's name for a status.
pub open spec fn status_name(s: Status) -> Seq<char> {
    match s {
        Status::Current => "current"@,
        Status::Superseded => "superseded"@,
        Status::Abandoned => "abandoned"@,
        Status::Stale => "stale"@,
    }
}

/// The page type a name spells, in schema order.
pub open spec fn type_named(raw: Seq<char>) -> Option<PageType> {
    if raw == "project"@ {
        Some(PageType::Project)
    } else if raw == "decision"@ {
        Some(PageType::Decision)
    } else if raw == "open"@ {
        Some(PageType::Open)
    } else if raw == "attempt"@ {
        Some(PageType::Attempt)
    } else if raw == "component"@ {
        Some(PageType::Component)
    } else if raw == "gotcha"@ {
        Some(PageType::Gotcha)
    } else {
        None
    }
}

pub open spec fn status_named(raw: Seq<char>) -> Option<Status> {
    if raw == "current"@ {
        Some(Status::Current)
    } else if raw == "superseded"@ {
        Some(Status::Superseded)
    } else if raw == "abandoned"@ {
        Some(Status::Abandoned)
    } else if raw == "stale"@ {
        Some(Status::Stale)
    } else {
        None
    }
}

impl PageType {
    pub fn as_str(self) -> (r: &'static str)
        ensures
            r@ == page_type_name(self),
    {
        match self {
            PageType::Project => "project",
            PageType::Decision => "decision",
            PageType::Open => "open",
            PageType::Attempt => "attempt",
            PageType::Component => "component",
            PageType::Gotcha => "gotcha",
        }
    }
}

impl Status {
    pub fn as_str(self) -> (r: &'static str)
        ensures
            r@ == status_name(self),
    {
        match self {
            Status::Current => "current",
            Status::Superseded => "superseded",
            Status::Abandoned => "abandoned",
            Status::Stale => "stale",
        }
    }
}

/// The five required frontmatter fields.
#[derive(Debug, Clone, PartialEq, Eq)]
pub struct Frontmatter {
    pub page_type: PageType,
    /// `None` for pages in `concepts/`, which belong to no project.
    pub project: Option<String>,
    pub status: Status,
    pub updated: Date,
    pub sources: Vec<String>,
}

pub struct FmView {
    pub page_type: PageType,
    pub project: Option<Seq<char>>,
    pub status: Status,
    pub updated: (i32, u32, u32),
    pub sources: Seq<Seq<char>>,
}

impl View for Frontmatter {
    type V = FmView;

    open spec fn view(&self) -> FmView {
        FmView {
            page_type: self.page_type,
            project: self.project.deep_view(),
            status: self.status,
            updated: self.updated.ymd(),
            sources: self.sources.deep_view(),
        }
    }
}

/// A field read as a single value: a scalar, or `""` for an empty value.
/// `Err(true)` for a non-empty list, `Err(false)` for a missing field.
pub open spec fn scalar_spec(fields: Seq<(Seq<char>, Val)>, key: Seq<char>) -> Result<Seq<char>, bool> {
    match find_field(fields, key) {
        Some(Val::Scalar(s)) => Ok(s),
        Some(Val::List(items)) => if items.len() == 0 {
            Ok(seq![])
        } else {
            Err(true)
        },
        None => Err(false),
    }
}

pub open spec fn field_err(id: Seq<char>, key: Seq<char>, is_list: bool) -> ErrView {
    if is_list {
        ErrView::BadField(id, key, "expected a single value, found a list"@)
    } else {
        ErrView::MissingField(id, key)
    }
}

/// The first forty characters of a line, to name it in an error.
pub open spec fn key_hint(line: Seq<char>) -> Seq<char> {
    if line.len() <= 40 {
        line
    } else {
        line.subrange(0, 40)
    }
}

/// The values that mean "no project".
pub open spec fn is_null(raw: Seq<char>) -> bool {
    raw == ""@ || raw == "null"@ || raw == "~"@ || raw == "Null"@ || raw == "NULL"@
}

/// `sources`: a list, or one bare id read as a list of one.
pub open spec fn sources_spec(fields: Seq<(Seq<char>, Val)>) -> Option<Seq<Seq<char>>> {
    match find_field(fields, "sources"@) {
        Some(Val::List(items)) => Some(items),
        Some(Val::Scalar(one)) => Some(seq![one]),
        None => None,
    }
}

/// The frontmatter of a page, from its fields, once the `updated` text has
/// been read as a date (`date`). Fields are checked in the order `type`,
/// `status`, `updated`, `project`, `sources`; the first failure is the error.
pub open spec fn frontmatter_from_fields(
    fields: Seq<(Seq<char>, Val)>,
    id: Seq<char>,
    date: spec_fn(Seq<char>) -> Option<(i32, u32, u32)>,
) -> Result<FmView, ErrView> {
    match scalar_spec(fields, "type"@) {
        Err(l) => Err(field_err(id, "type"@, l)),
        Ok(raw_type) => match type_named(raw_type) {
            None => Err(
                ErrView::BadField(
                    id,
                    "type"@,
                    "`"@ + raw_type + "` is not one of project | decision | open | attempt | component | gotcha"@,
                ),
            ),
            Some(page_type) => match scalar_spec(fields, "status"@) {
                Err(l) => Err(field_err(id, "status"@, l)),
                Ok(raw_status) => match status_named(raw_status) {
                    None => Err(
                        ErrView::BadField(
                            id,
                            "status"@,
                            "`"@ + raw_status + "` is not one of current | superseded | abandoned | stale"@,
                        ),
                    ),
                    Some(status) => match scalar_spec(fields, "updated"@) {
                        Err(l) => Err(field_err(id, "updated"@, l)),
                        Ok(raw_updated) => match date(raw_updated) {
                            None => Err(
                                ErrView::BadField(
                                    id,
                                    "updated"@,
                                    "`"@ + raw_updated + "` is not an ISO date like 2026-08-22"@,
                                ),
                            ),
                            Some(updated) => match scalar_spec(fields, "project"@) {
                                Err(l) => Err(field_err(id, "project"@, l)),
                                Ok(raw_project) => match sources_spec(fields) {
                                    None => Err(ErrView::MissingField(id, "sources"@)),
                                    Some(sources) => Ok(
                                        FmView {
                                            page_type,
                                            project: if is_null(raw_project) {
                                                None
                                            } else {
                                                Some(raw_project)
                                            },
                                            status,
                                            updated,
                                            sources,
                                        },
                                    ),
                                },
                            },
                        },
                    },
                },
            },
        },
    }
}

/// The keys the frontmatter reads.
pub open spec fn known_key(k: Seq<char>) -> bool {
    k == "type"@ || k == "project"@ || k == "status"@ || k == "updated"@ || k == "sources"@
}

proof fn lemma_find_field_skips(
    a: Seq<(Seq<char>, Val)>,
    x: (Seq<char>, Val),
    b: Seq<(Seq<char>, Val)>,
    key: Seq<char>,
)
    requires
        x.0 != key,
    ensures
        find_field(a + seq![x] + b, key) == find_field(a + b, key),
    decreases a.len(),
{
    if a.len() == 0 {
        assert(seq![x] + b =~= (a + seq![x] + b));
        assert((seq![x] + b).drop_first() =~= b);
        assert(a + b =~= b);
    } else {
        lemma_find_field_skips(a.drop_first(), x, b, key);
        assert((a + seq![x] + b).drop_first() =~= a.drop_first() + seq![x] + b);
        assert((a + b).drop_first() =~= a.drop_first() + b);
    }
}

/// An unknown key is ignored, never rejected: a field whose key is none of
/// `type`, `project`, `status`, `updated`, `sources`, wherever it stands and
/// whatever its value, changes neither the frontmatter read nor the error.
pub proof fn law_unknown_keys_are_ignored(
    a: Seq<(Seq<char>, Val)>,
    x: (Seq<char>, Val),
    b: Seq<(Seq<char>, Val)>,
    id: Seq<char>,
    date: spec_fn(Seq<char>) -> Option<(i32, u32, u32)>,
)
    requires
        !known_key(x.0),
    ensures
        frontmatter_from_fields(a + seq![x] + b, id, date) == frontmatter_from_fields(a + b, id, date),
{
    lemma_find_field_skips(a, x, b, "type"@);
    lemma_find_field_skips(a, x, b, "status"@);
    lemma_find_field_skips(a, x, b, "updated"@);
    lemma_find_field_skips(a, x, b, "project"@);
    lemma_find_field_skips(a, x, b, "sources"@);
}

/// The frontmatter a YAML block holds, with `updated` read by `date`.
pub open spec fn frontmatter_spec(
    yaml: Seq<char>,
    id: Seq<char>,
    date: spec_fn(Seq<char>) -> Option<(i32, u32, u32)>,
) -> Result<FmView, ErrView> {
    match fields_from(trimmed_lines_from(yaml, 0), 0, seq![]) {
        Err(line) => Err(ErrView::BadField(id, key_hint(line), "expected `key: value`"@)),
        Ok(fields) => frontmatter_from_fields(fields, id, date),
    }
}

/// `chrono`'s reading of a date, as a spec function value.
pub open spec fn chrono_date() -> spec_fn(Seq<char>) -> Option<(i32, u32, u32)> {
    |t: Seq<char>| parsed_iso_date(t)
}

} // verus!

verus! {

pub open spec fn res_view<T: View>(r: Result<T, WikiError>) -> Result<T::V, ErrView> {
    match r {
        Ok(t) => Ok(t@),
        Err(e) => Err(e@),
    }
}

fn field_error(id: &str, key: &str, is_list: bool) -> (e: WikiError)
    ensures
        e@ == field_err(id@, key@, is_list),
{
    if is_list {
        WikiError::BadField {
            path: String::from_str(id),
            key: String::from_str(key),
            detail: String::from_str("expected a single value, found a list"),
        }
    } else {
        WikiError::MissingField { path: String::from_str(id), key: String::from_str(key) }
    }
}

fn scalar(fields: &Vec<Field>, key: &str, id: &str) -> (r: Result<Vec<char>, WikiError>)
    ensures
        match scalar_spec(fields_view(fields@), key@) {
            Ok(s) => r matches Ok(v) && v@ == s,
            Err(l) => r matches Err(e) && e@ == field_err(id@, key@, l),
        },
{
    match find_field_exec(fields, key) {
        Some(FieldVal::Scalar(s)) => {
            assert(s@.subrange(0, s@.len() as int) =~= s@);
            Ok(slice_vec(s, 0, s.len()))
        },
        Some(FieldVal::List(items)) => {
            if items.len() == 0 {
                assert(vv_view(items@).len() == 0);
                let v: Vec<char> = Vec::new();
                assert(v@ =~= Seq::<char>::empty());
                Ok(v)
            } else {
                Err(field_error(id, key, true))
            }
        },
        None => Err(field_error(id, key, false)),
    }
}

/// "`raw`" followed by `tail`.
fn quoted_detail(raw: &Vec<char>, tail: &str) -> (r: String)
    ensures
        r@ == "`"@ + raw@ + tail@,
{
    let mut s = String::from_str("`");
    push_span(&mut s, raw, 0, raw.len());
    s.append(tail);
    assert(raw@.subrange(0, raw@.len() as int) =~= raw@);
    s
}

fn type_of(raw: &Vec<char>) -> (r: Option<PageType>)
    ensures
        r == type_named(raw@),
{
    let n = raw.len();
    assert(raw@.subrange(0, n as int) =~= raw@);
    if span_is(raw, 0, n, "project") {
        Some(PageType::Project)
    } else if span_is(raw, 0, n, "decision") {
        Some(PageType::Decision)
    } else if span_is(raw, 0, n, "open") {
        Some(PageType::Open)
    } else if span_is(raw, 0, n, "attempt") {
        Some(PageType::Attempt)
    } else if span_is(raw, 0, n, "component") {
        Some(PageType::Component)
    } else if span_is(raw, 0, n, "gotcha") {
        Some(PageType::Gotcha)
    } else {
        None
    }
}

fn status_of(raw: &Vec<char>) -> (r: Option<Status>)
    ensures
        r == status_named(raw@),
{
    let n = raw.len();
    assert(raw@.subrange(0, n as int) =~= raw@);
    if span_is(raw, 0, n, "current") {
        Some(Status::Current)
    } else if span_is(raw, 0, n, "superseded") {
        Some(Status::Superseded)
    } else if span_is(raw, 0, n, "abandoned") {
        Some(Status::Abandoned)
    } else if span_is(raw, 0, n, "stale") {
        Some(Status::Stale)
    } else {
        None
    }
}

fn null_project(raw: &Vec<char>) -> (r: bool)
    ensures
        r == is_null(raw@),
{
    let n = raw.len();
    assert(raw@.subrange(0, n as int) =~= raw@);
    span_is(raw, 0, n, "") || span_is(raw, 0, n, "null") || span_is(raw, 0, n, "~") || span_is(
        raw,
        0,
        n,
        "Null",
    ) || span_is(raw, 0, n, "NULL")
}

fn strings_of(items: &Vec<Vec<char>>) -> (r: Vec<String>)
    ensures
        r.deep_view() == vv_view(items@),
{
    let mut out: Vec<String> = Vec::new();
    let mut k: usize = 0;
    while k < items.len()
        invariant
            k <= items@.len(),
            out@.len() == k,
            forall|j: int| 0 <= j < k ==> #[trigger] out@[j]@ == items@[j]@,
        decreases items.len() - k,
    {
        let it = &items[k];
        assert(it@.subrange(0, it@.len() as int) =~= it@);
        out.push(string_of(it, 0, it.len()));
        k += 1;
    }
    assert(out.deep_view() =~= vv_view(items@));
    out
}

fn assemble_frontmatter(fields: &Vec<Field>, id: &str) -> (r: Result<Frontmatter, WikiError>)
    ensures
        res_view(r) == frontmatter_from_fields(fields_view(fields@), id@, chrono_date()),
{
    let raw_type = scalar(fields, "type", id)?;
    let page_type = match type_of(&raw_type) {
        Some(t) => t,
        None => {
            return Err(
                WikiError::BadField {
                    path: String::from_str(id),
                    key: String::from_str("type"),
                    detail: quoted_detail(
                        &raw_type,
                        "` is not one of project | decision | open | attempt | component | gotcha",
                    ),
                },
            );
        },
    };
    let raw_status = scalar(fields, "status", id)?;
    let status = match status_of(&raw_status) {
        Some(s) => s,
        None => {
            return Err(
                WikiError::BadField {
                    path: String::from_str(id),
                    key: String::from_str("status"),
                    detail: quoted_detail(
                        &raw_status,
                        "` is not one of current | superseded | abandoned | stale",
                    ),
                },
            );
        },
    };
    let raw_updated = scalar(fields, "updated", id)?;
    let text = string_of(&raw_updated, 0, raw_updated.len());
    assert(raw_updated@.subrange(0, raw_updated@.len() as int) =~= raw_updated@);
    let updated = match Date::parse_iso(text.as_str()) {
        Some(d) => d,
        None => {
            return Err(
                WikiError::BadField {
                    path: String::from_str(id),
                    key: String::from_str("updated"),
                    detail: quoted_detail(&raw_updated, "` is not an ISO date like 2026-08-22"),
                },
            );
        },
    };
    let raw_project = scalar(fields, "project", id)?;
    let project = if null_project(&raw_project) {
        None
    } else {
        assert(raw_project@.subrange(0, raw_project@.len() as int) =~= raw_project@);
        Some(string_of(&raw_project, 0, raw_project.len()))
    };
    let sources = match find_field_exec(fields, "sources") {
        Some(FieldVal::List(items)) => strings_of(items),
        Some(FieldVal::Scalar(one)) => {
            let mut v: Vec<String> = Vec::new();
            assert(one@.subrange(0, one@.len() as int) =~= one@);
            v.push(string_of(one, 0, one.len()));
            assert(v.deep_view() =~= seq![one@]);
            v
        },
        None => {
            return Err(
                WikiError::MissingField {
                    path: String::from_str(id),
                    key: String::from_str("sources"),
                },
            );
        },
    };
    Ok(Frontmatter { page_type, project, status, updated, sources })
}

/// Parse the frontmatter block `yaml` of the page `id`.
pub fn parse_frontmatter(yaml: &Vec<char>, id: &str) -> (r: Result<Frontmatter, WikiError>)
    ensures
        res_view(r) == frontmatter_spec(yaml@, id@, chrono_date()),
{
    let tl = trimmed_lines(yaml);
    match collect_fields(&tl) {
        Ok(fields) => assemble_frontmatter(&fields, id),
        Err(line) => {
            let n = if line.len() <= 40 {
                line.len()
            } else {
                40
            };
            let hint = string_of(&line, 0, n);
            assert(line@.len() <= 40 ==> line@.subrange(0, n as int) =~= line@);
            Err(
                WikiError::BadField {
                    path: String::from_str(id),
                    key: hint,
                    detail: String::from_str("expected `key: value`"),
                },
            )
        },
    }
}

} // verus!
