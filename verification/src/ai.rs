//! What the library makes of the model service's replies, and the messages
//! it sends. The HTTP exchange itself is left to the caller.

use vstd::prelude::*;
use crate::strings::{decimal, push_decimal};
use crate::text::{chars_of, string_of, trim, trim_span};

verus! {

/// Why a request to the model service failed.
#[derive(Debug)]
pub enum AiError {
    Http(String),
    Api { status: u16, message: String },
    Refused(String),
    Shape(String),
    Json(String),
}

pub enum AiErrView {
    Http(Seq<char>),
    Api(u16, Seq<char>),
    Refused(Seq<char>),
    Shape(Seq<char>),
    Json(Seq<char>),
}

impl View for AiError {
    type V = AiErrView;

    open spec fn view(&self) -> AiErrView {
        match self {
            AiError::Http(s) => AiErrView::Http(s@),
            AiError::Api { status, message } => AiErrView::Api(*status, message@),
            AiError::Refused(s) => AiErrView::Refused(s@),
            AiError::Shape(s) => AiErrView::Shape(s@),
            AiError::Json(s) => AiErrView::Json(s@),
        }
    }
}

pub open spec fn ai_message(e: AiErrView) -> Seq<char> {
    match e {
        AiErrView::Http(s) => "network error: "@ + s,
        AiErrView::Api(st, m) => "service error ("@ + decimal(st as nat) + "): "@ + m,
        AiErrView::Refused(d) => "the model declined this request"@ + d,
        AiErrView::Shape(s) => "unexpected response shape: "@ + s,
        AiErrView::Json(s) => "could not parse the extracted context: "@ + s,
    }
}

impl AiError {
    /// What went wrong, as one line.
    pub fn message(&self) -> (r: String)
        ensures
            r@ == ai_message(self@),
    {
        let mut out = String::new();
        match self {
            AiError::Http(s) => {
                out.append("network error: ");
                out.append(s.as_str());
            },
            AiError::Api { status, message } => {
                out.append("service error (");
                push_decimal(&mut out, *status as usize);
                out.append("): ");
                out.append(message.as_str());
            },
            AiError::Refused(d) => {
                out.append("the model declined this request");
                out.append(d.as_str());
            },
            AiError::Shape(s) => {
                out.append("unexpected response shape: ");
                out.append(s.as_str());
            },
            AiError::Json(s) => {
                out.append("could not parse the extracted context: ");
                out.append(s.as_str());
            },
        }
        out
    }
}

/// One content block of a reply, as far as it is read: its `type` and its
/// `text`, each present only when it is a string.
#[derive(Debug, Clone)]
pub struct ReplyBlock {
    pub kind: Option<String>,
    pub text: Option<String>,
}

/// The fields of a reply that are read: `stop_reason`, the refusal's
/// `stop_details.category`, each present only when a string, and `content`,
/// present only when an array.
#[derive(Debug, Clone)]
pub struct Reply {
    pub stop_reason: Option<String>,
    pub category: Option<String>,
    pub content: Option<Vec<ReplyBlock>>,
}

pub struct BlockView {
    pub kind: Option<Seq<char>>,
    pub text: Option<Seq<char>>,
}

pub open spec fn blocks_view(bs: Seq<ReplyBlock>) -> Seq<BlockView> {
    bs.map_values(|b: ReplyBlock| BlockView { kind: b.kind.deep_view(), text: b.text.deep_view() })
}

/// The first block at or after `k` whose type is `text`.
pub open spec fn first_text_from(bs: Seq<BlockView>, k: int) -> Option<int>
    decreases bs.len() - k,
{
    if k < 0 || k >= bs.len() {
        None
    } else if bs[k].kind == Some("text"@) {
        Some(k)
    } else {
        first_text_from(bs, k + 1)
    }
}

/// The single text block of a reply, after checking that the model did not
/// decline: a refusal arrives as a success, so reading the content without
/// this check would yield a confusing empty result.
pub open spec fn text_of_spec(
    stop_reason: Option<Seq<char>>,
    category: Option<Seq<char>>,
    content: Option<Seq<BlockView>>,
) -> Result<Seq<char>, AiErrView> {
    if stop_reason == Some("refusal"@) {
        Err(
            AiErrView::Refused(
                match category {
                    Some(c) => " ("@ + c + ")"@,
                    None => seq![],
                },
            ),
        )
    } else {
        match content {
            Some(bs) => match first_text_from(bs, 0) {
                Some(k) => match bs[k].text {
                    Some(t) => Ok(t),
                    None => Err(AiErrView::Shape("no text block in response"@)),
                },
                None => Err(AiErrView::Shape("no text block in response"@)),
            },
            None => Err(AiErrView::Shape("no text block in response"@)),
        }
    }
}

pub open spec fn content_view(c: Option<Vec<ReplyBlock>>) -> Option<Seq<BlockView>> {
    match c {
        Some(v) => Some(blocks_view(v@)),
        None => None,
    }
}

pub open spec fn result_view(r: Result<String, AiError>) -> Result<Seq<char>, AiErrView> {
    match r {
        Ok(s) => Ok(s@),
        Err(e) => Err(e@),
    }
}

fn is_lit(s: &Option<String>, lit: &str) -> (r: bool)
    ensures
        r == (s.deep_view() == Some(lit@)),
{
    match s {
        Some(x) => *x == String::from_str(lit),
        None => false,
    }
}

/// Pull the single text block out of a reply.
pub fn text_of(res: &Reply) -> (r: Result<String, AiError>)
    ensures
        result_view(r) == text_of_spec(
            res.stop_reason.deep_view(),
            res.category.deep_view(),
            content_view(res.content),
        ),
{
    if is_lit(&res.stop_reason, "refusal") {
        let mut detail = String::new();
        match &res.category {
            Some(c) => {
                detail.append(" (");
                detail.append(c.as_str());
                detail.append(")");
            },
            None => {},
        }
        return Err(AiError::Refused(detail));
    }
    let shape = AiError::Shape(String::from_str("no text block in response"));
    match &res.content {
        None => Err(shape),
        Some(blocks) => {
            let ghost bv = blocks_view(blocks@);
            let mut k: usize = 0;
            while k < blocks.len()
                invariant
                    k <= blocks@.len(),
                    res.stop_reason.deep_view() != Some("refusal"@),
                    res.content == Some(*blocks),
                    shape@ == AiErrView::Shape("no text block in response"@),
                    bv == blocks_view(blocks@),
                    first_text_from(bv, k as int) == first_text_from(bv, 0),
                decreases blocks.len() - k,
            {
                if is_lit(&blocks[k].kind, "text") {
                    assert(bv[k as int].kind == Some("text"@));
                    assert(bv[k as int].text == blocks@[k as int].text.deep_view());
                    return match &blocks[k].text {
                        Some(t) => Ok(t.clone()),
                        None => Err(shape),
                    };
                }
                k += 1;
            }
            Err(shape)
        },
    }
}

/// The error for a failed response: the service's own message when it sent
/// one, else the status's reason phrase, else `error`. The request is never
/// echoed back, because it contains the user's conversation.
pub open spec fn api_error_spec(status: u16, sent: Option<Seq<char>>, reason: Option<Seq<char>>) -> AiErrView {
    AiErrView::Api(
        status,
        match sent {
            Some(m) => m,
            None => match reason {
                Some(r) => r,
                None => "error"@,
            },
        },
    )
}

pub fn api_error(status: u16, sent: Option<String>, reason: Option<String>) -> (r: AiError)
    ensures
        r@ == api_error_spec(status, sent.deep_view(), reason.deep_view()),
{
    let message = match sent {
        Some(m) => m,
        None => match reason {
            Some(r) => r,
            None => String::from_str("error"),
        },
    };
    AiError::Api { status, message }
}

/// The user message that carries a conversation to extract from.
pub open spec fn extract_message_spec(conversation: Seq<char>) -> Seq<char> {
    "<conversation>\n"@ + conversation + "\n</conversation>"@
}

pub fn extract_message(conversation: &str) -> (r: String)
    ensures
        r@ == extract_message_spec(conversation@),
{
    let mut out = String::from_str("<conversation>\n");
    out.append(conversation);
    out.append("\n</conversation>");
    out
}

/// The user message that carries an existing context, as JSON, and a newer
/// conversation to merge into it.
pub open spec fn update_message_spec(name: Seq<char>, current: Seq<char>, conversation: Seq<char>) -> Seq<
    char,
> {
    "<existing-context name=\""@ + name + "\">\n"@ + current
        + "\n</existing-context>\n\n<new-conversation>\n"@ + conversation
        + "\n</new-conversation>"@
}

pub fn update_message(name: &str, current: &str, conversation: &str) -> (r: String)
    ensures
        r@ == update_message_spec(name@, current@, conversation@),
{
    let mut out = String::from_str("<existing-context name=\"");
    out.append(name);
    out.append("\">\n");
    out.append(current);
    out.append("\n</existing-context>\n\n<new-conversation>\n");
    out.append(conversation);
    out.append("\n</new-conversation>");
    out
}

/// The handoff prompt a reply carries: its text block, trimmed.
pub fn handoff_text(res: &Reply) -> (r: Result<String, AiError>)
    ensures
        match text_of_spec(res.stop_reason.deep_view(), res.category.deep_view(), content_view(res.content)) {
            Ok(t) => r matches Ok(s) && s@ == trim(t),
            Err(e) => r matches Err(x) && x@ == e,
        },
{
    match text_of(res) {
        Ok(t) => {
            let v = chars_of(t.as_str());
            let (a, b) = trim_span(&v, 0, v.len());
            assert(v@.subrange(0, v@.len() as int) =~= v@);
            Ok(string_of(&v, a, b))
        },
        Err(e) => Err(e),
    }
}

} // verus!
