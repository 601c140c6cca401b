use web_video_player::context::ContextValue;
use web_video_player::entry::FsEntry;
use web_video_player::pages::{
    index, index_context, login, login_context, login_form, page_reply, IndexAction, IndexEvent,
    ListPermit,
};
use web_video_player::templates::{add_template, new_templates, Templates};
use web_video_player::tree::TreeNode;
use web_video_player::utils::{ContentType, Reply};

const FILE_TREE: &str = "{{ for entry in entries }}{{ if entry.is_dir }}[{entry.name}{{ if entry.is_opened }}*{{ endif }}:{{ call file_tree.html with entry }}]{{ else }}({entry.type} {entry.name} {entry.path}{{ if entry.is_opened }} *{{ endif }}){{ endif }}{{ endfor }}";

fn templates() -> Templates {
    let mut templates = new_templates();
    add_template(&mut templates, "login.html", "<form>{no_value}</form>").unwrap();
    add_template(&mut templates, "file_tree.html", FILE_TREE).unwrap();
    add_template(
        &mut templates,
        "index.html",
        "{files.name}:{{ call file_tree.html with files }}|{{ if video_path }}playing {video_path}{{ else }}nothing{{ endif }}",
    )
    .unwrap();
    templates
}

/// The leave that a signed-in request gets.
fn permit(templates: &Templates) -> ListPermit {
    match index(templates, IndexEvent::Request { logged_in: true }, "/v/", None) {
        IndexAction::List { permit } => permit,
        other => panic!("no leave to list: {other:?}"),
    }
}

fn listed(templates: &Templates) -> IndexEvent {
    IndexEvent::Listed { permit: permit(templates), videos: videos() }
}

fn videos() -> FsEntry {
    FsEntry::dir(
        b"v".to_vec(),
        b"/v/".to_vec(),
        vec![
            FsEntry::file(b"a.mp4".to_vec(), b"/v/a.mp4".to_vec()),
            FsEntry::dir(
                b"sub".to_vec(),
                b"/v/sub".to_vec(),
                vec![FsEntry::file(b"b.mp4".to_vec(), b"/v/sub/b.mp4".to_vec())],
            ),
        ],
    )
}

fn html(body: &str) -> IndexAction {
    IndexAction::Respond {
        reply: Reply { status: 200, content_type: ContentType::Html, body: body.to_string() },
    }
}

#[test]
fn a_rendered_page_is_sent_as_html() {
    assert_eq!(
        page_reply(Ok("<html></html>".to_string())),
        Reply { status: 200, content_type: ContentType::Html, body: "<html></html>".to_string() }
    );
}

#[test]
fn a_failed_page_is_a_server_error() {
    assert_eq!(
        page_reply(Err("Unknown template 'index.html'".to_string())),
        Reply {
            status: 500,
            content_type: ContentType::PlainUtf8,
            body: "Template error Unknown template 'index.html'".to_string(),
        }
    );
}

#[test]
fn login_context_holds_no_value() {
    assert_eq!(
        login_context(),
        ContextValue::Record(vec![("no_value".to_string(), ContextValue::Null)])
    );
}

#[test]
fn index_context_holds_the_tree_and_the_selection() {
    let files = TreeNode::File {
        name: "a".to_string(),
        is_opened: false,
        path: "/video/a".to_string(),
    };
    let selection = "/video/b".to_string();
    assert_eq!(
        index_context(&files, Some(&selection)),
        ContextValue::Record(vec![
            ("files".to_string(), files.to_value()),
            ("video_path".to_string(), ContextValue::Text("/video/b".to_string())),
            ("no_value".to_string(), ContextValue::Null),
        ])
    );
    assert_eq!(
        index_context(&files, None),
        ContextValue::Record(vec![
            ("files".to_string(), files.to_value()),
            ("video_path".to_string(), ContextValue::Bool(false)),
            ("no_value".to_string(), ContextValue::Null),
        ])
    );
}

#[test]
fn login_form_is_rendered_from_its_template() {
    assert_eq!(
        login_form(&templates()),
        Reply { status: 200, content_type: ContentType::Html, body: "<form></form>".to_string() }
    );
}

#[test]
fn login_form_without_its_template_is_a_server_error() {
    let reply = login_form(&new_templates());
    assert_eq!(reply.status, 500);
    assert_eq!(reply.content_type, ContentType::PlainUtf8);
    assert_eq!(reply.body, "Template error Unknown template 'login.html'");
}

#[test]
fn who_is_not_signed_in_gets_the_login_form() {
    let action = index(&templates(), IndexEvent::Request { logged_in: false }, "/v/", None);
    assert_eq!(action, html("<form></form>"));
}

#[test]
fn who_is_signed_in_has_the_videos_listed() {
    let action = index(&templates(), IndexEvent::Request { logged_in: true }, "/v/", None);
    assert!(matches!(action, IndexAction::List { .. }));
}

#[test]
fn the_listed_videos_are_rendered_as_a_tree() {
    let selection = "/video/sub/b.mp4".to_string();
    let templates = templates();
    let action = index(&templates, listed(&templates), "/v/", Some(&selection));
    assert_eq!(
        action,
        html("v:[sub*:(file b.mp4 /video/sub/b.mp4 *)](file a.mp4 /video/a.mp4)|playing /video/sub/b.mp4")
    );
}

#[test]
fn without_a_selection_the_page_shows_none() {
    let templates = templates();
    let action = index(&templates, listed(&templates), "/v/", None);
    assert_eq!(
        action,
        html("v:[sub:(file b.mp4 /video/sub/b.mp4)](file a.mp4 /video/a.mp4)|nothing")
    );
}

#[test]
fn a_tree_that_cannot_be_built_is_a_server_error() {
    let selection = "/videX/foo".to_string();
    let templates = templates();
    let action = index(&templates, listed(&templates), "/v/", Some(&selection));
    assert_eq!(
        action,
        IndexAction::Respond {
            reply: Reply {
                status: 500,
                content_type: ContentType::PlainUtf8,
                body: "File list error".to_string(),
            },
        }
    );
}

#[test]
fn an_index_that_cannot_be_rendered_is_a_server_error() {
    let templates = new_templates();
    let action = index(&templates, listed(&templates), "/v/", None);
    assert_eq!(
        action,
        IndexAction::Respond {
            reply: Reply {
                status: 500,
                content_type: ContentType::PlainUtf8,
                body: "Template error Unknown template 'index.html'".to_string(),
            },
        }
    );
}

#[test]
fn the_operator_is_signed_in() {
    assert_eq!(login("admin", "secret", "admin", "secret"), Some("admin".to_string()));
}

#[test]
fn nobody_else_is_signed_in() {
    assert_eq!(login("admin", "wrong", "admin", "secret"), None);
    assert_eq!(login("other", "secret", "admin", "secret"), None);
    assert_eq!(login("", "", "admin", "secret"), None);
    assert_eq!(login("secret", "admin", "admin", "secret"), None);
}

#[test]
fn who_is_not_signed_in_gets_the_login_form_and_no_leave_to_list() {
    let mut templates = new_templates();
    add_template(&mut templates, "login.html", "login").unwrap();
    add_template(&mut templates, "index.html", "index").unwrap();
    let action = index(&templates, IndexEvent::Request { logged_in: false }, "/v/", None);
    assert_eq!(action, html("login"));
}

#[test]
fn the_index_is_rendered_from_its_own_template() {
    let mut templates = new_templates();
    add_template(&mut templates, "login.html", "login").unwrap();
    add_template(&mut templates, "index.html", "index of {files.name}").unwrap();
    let action = index(&templates, listed(&templates), "/v/", None);
    assert_eq!(action, html("index of v"));
}
