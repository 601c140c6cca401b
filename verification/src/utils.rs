//! What the server says when something went wrong, and who may ask.

use crate::context::{ContextValue, ContextView};
use crate::templates::{json_of, render, rendered_page, rendering, template_texts, Templates};
use crate::text::bytes_equal;
use vstd::prelude::*;
use vstd::string::*;

verus! {

/// How the body of a reply is to be read.
#[derive(Clone, Copy, Debug, PartialEq, Eq, Structural)]
pub enum ContentType {
    /// `text/html`
    Html,
    /// `text/html; charset=utf-8`
    HtmlUtf8,
    /// `text/plain; charset=utf-8`
    PlainUtf8,
}

impl ContentType {
    /// The value of the `Content-Type` header.
    pub fn header_value(&self) -> (r: &'static str)
        ensures
            r@ == match *self {
                ContentType::Html => "text/html"@,
                ContentType::HtmlUtf8 => "text/html; charset=utf-8"@,
                ContentType::PlainUtf8 => "text/plain; charset=utf-8"@,
            },
    {
        match self {
            ContentType::Html => "text/html",
            ContentType::HtmlUtf8 => "text/html; charset=utf-8",
            ContentType::PlainUtf8 => "text/plain; charset=utf-8",
        }
    }
}

/// What the server sends back: a status, the kind of the body, and the body.
#[derive(Debug, PartialEq, Eq)]
pub struct Reply {
    pub status: u16,
    pub content_type: ContentType,
    pub body: String,
}

/// A reply as a value.
pub struct ReplyView {
    pub status: u16,
    pub content_type: ContentType,
    pub body: Seq<char>,
}

impl View for Reply {
    type V = ReplyView;

    open spec fn view(&self) -> ReplyView {
        ReplyView { status: self.status, content_type: self.content_type, body: self.body@ }
    }
}

/// The decimal digit for a number below ten.
pub open spec fn digit(d: nat) -> char {
    if d == 0 {
        '0'
    } else if d == 1 {
        '1'
    } else if d == 2 {
        '2'
    } else if d == 3 {
        '3'
    } else if d == 4 {
        '4'
    } else if d == 5 {
        '5'
    } else if d == 6 {
        '6'
    } else if d == 7 {
        '7'
    } else if d == 8 {
        '8'
    } else {
        '9'
    }
}

/// A number written in decimal digits.
pub open spec fn decimal(n: nat) -> Seq<char>
    decreases n,
{
    if n < 10 {
        seq![digit(n)]
    } else {
        decimal(n / 10).push(digit(n % 10))
    }
}

/// The digit of a number below ten, as a text of one letter.
fn digit_text(d: u16) -> (r: &'static str)
    requires
        d < 10,
    ensures
        r@ == seq![digit(d as nat)],
{
    proof {
        reveal_strlit("0");
        reveal_strlit("1");
        reveal_strlit("2");
        reveal_strlit("3");
        reveal_strlit("4");
        reveal_strlit("5");
        reveal_strlit("6");
        reveal_strlit("7");
        reveal_strlit("8");
        reveal_strlit("9");
    }
    let r = match d {
        0 => "0",
        1 => "1",
        2 => "2",
        3 => "3",
        4 => "4",
        5 => "5",
        6 => "6",
        7 => "7",
        8 => "8",
        _ => "9",
    };
    assert(r@ =~= seq![digit(d as nat)]);
    r
}

/// A status code as the error page shows it: in decimal digits.
pub fn status_code_text(status: u16) -> (r: String)
    ensures
        r@ == decimal(status as nat),
    decreases status,
{
    if status < 10 {
        digit_text(status).to_owned()
    } else {
        let front = status_code_text(status / 10);
        let r = front.concat(digit_text(status % 10));
        assert(r@ =~= decimal(status as nat));
        r
    }
}

/// What the error page is filled with: the error, and the status in digits.
pub open spec fn error_context_of(status: u16, error: Seq<char>) -> ContextView {
    ContextView::Record(
        seq![
            ("error"@, ContextView::Text(error)),
            ("status_code"@, ContextView::Text(decimal(status as nat))),
        ],
    )
}

/// What the error page is filled with: the error, and the status in digits.
pub fn error_context(status: u16, error: &str) -> (r: ContextValue)
    ensures
        r@ == error_context_of(status, error@),
{
    let mut fields: Vec<(String, ContextValue)> = Vec::new();
    fields.push(("error".to_owned(), ContextValue::text(error)));
    fields.push(("status_code".to_owned(), ContextValue::text(status_code_text(status).as_str())));
    let r = ContextValue::record(fields);
    assert(r@->Record_0 =~= error_context_of(status, error@)->Record_0);
    r
}

/// The reply for an error, given what became of its page: the page as HTML
/// where it was rendered; the bare error as plain text where there are no
/// templates or the page failed. The status stays as it was.
pub open spec fn error_reply_of(
    status: u16,
    error: Seq<char>,
    rendered: Option<Result<Seq<char>, Seq<char>>>,
) -> ReplyView {
    match rendered {
        Some(Ok(page)) => ReplyView { status, content_type: ContentType::HtmlUtf8, body: page },
        _ => ReplyView { status, content_type: ContentType::PlainUtf8, body: error },
    }
}

/// What a rendering gave, if there was one, as a value.
pub open spec fn rendering_if_any(rendered: Option<Result<String, String>>) -> Option<
    Result<Seq<char>, Seq<char>>,
> {
    match rendered {
        Some(r) => Some(rendering(r)),
        None => None,
    }
}

/// The reply for an error, given what became of its page.
pub fn error_reply(status: u16, error: &str, rendered: Option<Result<String, String>>) -> (r:
    Reply)
    ensures
        r@ == error_reply_of(status, error@, rendering_if_any(rendered)),
{
    match rendered {
        Some(Ok(page)) => Reply { status, content_type: ContentType::HtmlUtf8, body: page },
        _ => Reply { status, content_type: ContentType::PlainUtf8, body: error.to_owned() },
    }
}

/// What became of the error page: what the template `error.html` of the set
/// renders when filled with the error and the status, where there is a set.
pub open spec fn error_page_of(templates: Option<&Templates>, status: u16, error: Seq<char>) -> Option<
    Result<Seq<char>, Seq<char>>,
> {
    match templates {
        Some(held) => Some(
            rendered_page(
                template_texts(*held),
                "error.html"@,
                json_of(error_context_of(status, error)),
            ),
        ),
        None => None,
    }
}

/// The reply for an error: the page `error.html`, filled with the error and
/// the status, or the bare error where there are no templates or that page
/// cannot be rendered.
pub fn get_error_response(templates: Option<&Templates>, status: u16, error: &str) -> (r: Reply)
    ensures
        r@ == error_reply_of(status, error@, error_page_of(templates, status, error@)),
{
    let rendered = match templates {
        Some(templates) => Some(render(templates, "error.html", &error_context(status, error))),
        None => None,
    };
    error_reply(status, error, rendered)
}

/// The statuses that get an error page, each with the error that its page
/// shows: a page that is not found, and no other.
pub fn error_handlers() -> (r: Vec<(u16, &'static str)>)
    ensures
        r@.len() == 1,
        r@[0].0 == 404,
        r@[0].1@ == "Page not found"@,
{
    let mut handlers: Vec<(u16, &'static str)> = Vec::new();
    handlers.push((404, "Page not found"));
    handlers
}

/// Whether the credentials that were sent are the expected ones: the user is
/// the login, and a password was sent and is the expected one.
pub open spec fn credentials_match(
    user_id: Seq<char>,
    password: Option<Seq<char>>,
    login: Seq<char>,
    expected_password: Seq<char>,
) -> bool {
    user_id == login && password == Some(expected_password)
}

/// The password that was sent, if any, as a value.
pub open spec fn sent_password(password: Option<&str>) -> Option<Seq<char>> {
    match password {
        Some(sent) => Some(sent@),
        None => None,
    }
}

/// The reply to a request that may not pass.
pub open spec fn forbidden() -> ReplyView {
    ReplyView { status: 403, content_type: ContentType::PlainUtf8, body: "Unautorized"@ }
}

/// Whether the credentials of a request are those of the operator: the user
/// is the login, and a password was sent and is the expected one. Where they
/// are not, the result is the reply to send.
pub fn auth_validator(
    user_id: &str,
    password: Option<&str>,
    login: &str,
    expected_password: &str,
) -> (r: Result<(), Reply>)
    ensures
        r is Ok <==> credentials_match(
            user_id@,
            sent_password(password),
            login@,
            expected_password@,
        ),
        r matches Err(reply) ==> reply@ == forbidden(),
{
    let user_matches = same_text(user_id, login);
    let password_matches = match password {
        Some(sent) => same_text(sent, expected_password),
        None => false,
    };
    if user_matches && password_matches {
        Ok(())
    } else {
        Err(Reply { status: 403, content_type: ContentType::PlainUtf8, body: "Unautorized".to_owned() })
    }
}

/// Whether two texts are the same. Texts of one length take the same time
/// whatever they hold.
pub fn same_text(a: &str, b: &str) -> (r: bool)
    ensures
        r == (a@ == b@),
{
    broadcast use vstd::utf8::encode_utf8_decode_utf8;

    let r = bytes_equal(a.as_bytes(), b.as_bytes());
    proof {
        if r {
            assert(vstd::utf8::decode_utf8(a.spec_bytes()) == vstd::utf8::decode_utf8(b.spec_bytes()));
        }
    }
    r
}

} // verus!
