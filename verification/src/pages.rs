//! The pages of the player: what a request for the index leads to, step by
//! step, and who is signed in.

use crate::context::{ContextValue, ContextView};
use crate::entry::FsEntry;
use crate::file_browser::{browse_dir, selected, tree_of};
use crate::templates::{json_of, render, rendered_page, rendering, template_texts, Templates};
use crate::tree::{node_value, NodeView, TreeNode};
use crate::utils::{credentials_match, same_text, ContentType, Reply, ReplyView};
use vstd::prelude::*;
use vstd::string::*;

verus! {

/// The leave to read the videos directory. Only a request of someone who is
/// signed in gets one.
#[derive(Debug, PartialEq, Eq)]
pub struct ListPermit {
    signed_in: (),
}

/// What happened on the way to the index page.
pub enum IndexEvent {
    /// A request came in, from someone who is signed in or is not.
    Request { logged_in: bool },
    /// The videos directory was read, with the leave to do so.
    Listed { permit: ListPermit, videos: FsEntry },
}

/// What is to be done next on the way to the index page.
#[derive(Debug, PartialEq, Eq)]
pub enum IndexAction {
    /// Read the videos directory and everything below it.
    List { permit: ListPermit },
    /// Send the reply.
    Respond { reply: Reply },
}

/// The reply that carries a rendered page, or tells that rendering failed.
pub open spec fn page_reply_of(rendered: Result<Seq<char>, Seq<char>>) -> ReplyView {
    match rendered {
        Ok(page) => ReplyView { status: 200, content_type: ContentType::Html, body: page },
        Err(words) => ReplyView {
            status: 500,
            content_type: ContentType::PlainUtf8,
            body: "Template error "@ + words,
        },
    }
}

/// The reply when the tree of the videos could not be built.
pub open spec fn file_list_error() -> ReplyView {
    ReplyView { status: 500, content_type: ContentType::PlainUtf8, body: "File list error"@ }
}

/// The reply that carries a rendered page, or tells that rendering failed.
pub fn page_reply(rendered: Result<String, String>) -> (r: Reply)
    ensures
        r@ == page_reply_of(rendering(rendered)),
{
    match rendered {
        Ok(page) => Reply { status: 200, content_type: ContentType::Html, body: page },
        Err(words) => Reply {
            status: 500,
            content_type: ContentType::PlainUtf8,
            body: "Template error ".to_owned().concat(words.as_str()),
        },
    }
}

/// What the login form is filled with: `no_value`, which holds nothing.
pub open spec fn login_context_of() -> ContextView {
    ContextView::Record(seq![("no_value"@, ContextView::Null)])
}

/// What the index page is filled with: the tree as `files`; as `video_path`
/// the selection, or `false` where there is none; and `no_value`, which
/// holds nothing.
pub open spec fn index_context_of(files: NodeView, selection: Option<Seq<char>>) -> ContextView {
    ContextView::Record(
        seq![
            ("files"@, node_value(files)),
            (
                "video_path"@,
                match selection {
                    Some(url) => ContextView::Text(url),
                    None => ContextView::Bool(false),
                },
            ),
            ("no_value"@, ContextView::Null),
        ],
    )
}

/// What the login form is filled with.
pub fn login_context() -> (r: ContextValue)
    ensures
        r@ == login_context_of(),
{
    let mut fields: Vec<(String, ContextValue)> = Vec::new();
    fields.push(("no_value".to_owned(), ContextValue::Null));
    let r = ContextValue::record(fields);
    assert(r@->Record_0 =~= login_context_of()->Record_0);
    r
}

/// What the index page is filled with.
pub fn index_context(files: &TreeNode, video_path: Option<&String>) -> (r: ContextValue)
    ensures
        r@ == index_context_of(files@, selected(video_path)),
{
    let mut fields: Vec<(String, ContextValue)> = Vec::new();
    fields.push(("files".to_owned(), files.to_value()));
    fields.push(
        (
            "video_path".to_owned(),
            match video_path {
                Some(url) => ContextValue::text(url.as_str()),
                None => ContextValue::Bool(false),
            },
        ),
    );
    fields.push(("no_value".to_owned(), ContextValue::Null));
    let r = ContextValue::record(fields);
    assert(r@->Record_0 =~= index_context_of(files@, selected(video_path))->Record_0);
    r
}

/// The reply with the login form: what the template `login.html` of a set
/// with these texts renders.
pub open spec fn login_form_of(texts: Map<Seq<char>, Seq<char>>) -> ReplyView {
    page_reply_of(rendered_page(texts, "login.html"@, json_of(login_context_of())))
}

/// The reply with the index page: what the template `index.html` of a set
/// with these texts renders when filled with the tree and the selection.
pub open spec fn index_page_of(
    texts: Map<Seq<char>, Seq<char>>,
    files: NodeView,
    selection: Option<Seq<char>>,
) -> ReplyView {
    page_reply_of(rendered_page(texts, "index.html"@, json_of(index_context_of(files, selection))))
}

/// The login form: the page `login.html`, or the failure to render it.
pub fn login_form(templates: &Templates) -> (r: Reply)
    ensures
        r@ == login_form_of(template_texts(*templates)),
{
    let rendered = render(templates, "login.html", &login_context());
    page_reply(rendered)
}

/// What an event on the way to the index page leads to, given the texts of
/// the templates, the videos root and the selection.
pub open spec fn next_step(
    texts: Map<Seq<char>, Seq<char>>,
    event: IndexEvent,
    root: Seq<char>,
    selection: Option<Seq<char>>,
    action: IndexAction,
) -> bool {
    match event {
        IndexEvent::Request { logged_in } => if logged_in {
            action is List
        } else {
            action matches IndexAction::Respond { reply } && reply@ == login_form_of(texts)
        },
        IndexEvent::Listed { videos, .. } => action matches IndexAction::Respond { reply }
            && reply@ == match tree_of(videos, root, selection) {
            Ok(files) => index_page_of(texts, files, selection),
            Err(_) => file_list_error(),
        },
    }
}

/// The next step on the way to the index page.
///
/// Who is not signed in gets the login form, and nothing is read. Who is
/// signed in gets the leave to have the videos directory read, and for what
/// was read its tree, rendered into the page `index.html`; a tree that
/// cannot be built and a page that cannot be rendered each end in a reply
/// that says so.
pub fn index(
    templates: &Templates,
    event: IndexEvent,
    videos_dir: &str,
    video_path: Option<&String>,
) -> (action: IndexAction)
    ensures
        next_step(
            template_texts(*templates),
            event,
            videos_dir@,
            selected(video_path),
            action,
        ),
{
    match event {
        IndexEvent::Request { logged_in } => {
            if logged_in {
                IndexAction::List { permit: ListPermit { signed_in: () } }
            } else {
                IndexAction::Respond { reply: login_form(templates) }
            }
        },
        IndexEvent::Listed { permit: _, videos } => match browse_dir(
            videos,
            videos_dir,
            video_path,
        ) {
            Ok(files) => {
                let context = index_context(&files, video_path);
                let rendered = render(templates, "index.html", &context);
                IndexAction::Respond { reply: page_reply(rendered) }
            },
            Err(_) => IndexAction::Respond {
                reply: Reply {
                    status: 500,
                    content_type: ContentType::PlainUtf8,
                    body: "File list error".to_owned(),
                },
            },
        },
    }
}

/// The name to sign in, where the form's credentials are the operator's.
pub fn login(user: &str, password: &str, expected_user: &str, expected_password: &str) -> (r:
    Option<String>)
    ensures
        r is Some <==> credentials_match(
            user@,
            Some(password@),
            expected_user@,
            expected_password@,
        ),
        r matches Some(name) ==> name@ == expected_user@,
{
    let user_matches = same_text(user, expected_user);
    let password_matches = same_text(password, expected_password);
    if user_matches && password_matches {
        Some(expected_user.to_owned())
    } else {
        None
    }
}

} // verus!
