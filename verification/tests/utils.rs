use web_video_player::context::ContextValue;
use web_video_player::templates::{add_template, new_templates, Templates};
use web_video_player::utils::{
    auth_validator, error_context, error_handlers, error_reply, get_error_response, same_text,
    status_code_text, ContentType, Reply,
};

fn with_template(name: &'static str, text: &'static str) -> Templates {
    let mut templates = new_templates();
    add_template(&mut templates, name, text).unwrap();
    templates
}

fn plain(status: u16, body: &str) -> Reply {
    Reply { status, content_type: ContentType::PlainUtf8, body: body.to_string() }
}

#[test]
fn status_code_is_written_in_digits() {
    assert_eq!(status_code_text(404), "404");
    assert_eq!(status_code_text(200), "200");
    assert_eq!(status_code_text(500), "500");
    assert_eq!(status_code_text(100), "100");
    assert_eq!(status_code_text(999), "999");
}

#[test]
fn any_number_is_written_in_digits() {
    assert_eq!(status_code_text(0), "0");
    assert_eq!(status_code_text(7), "7");
    assert_eq!(status_code_text(10), "10");
    assert_eq!(status_code_text(65535), "65535");
    assert_eq!(status_code_text(12345), "12345");
    assert_eq!(status_code_text(6789), "6789");
}

#[test]
fn content_types_name_their_header() {
    assert_eq!(ContentType::Html.header_value(), "text/html");
    assert_eq!(ContentType::HtmlUtf8.header_value(), "text/html; charset=utf-8");
    assert_eq!(ContentType::PlainUtf8.header_value(), "text/plain; charset=utf-8");
}

#[test]
fn error_context_holds_error_and_status() {
    assert_eq!(
        error_context(404, "Page not found"),
        ContextValue::Record(vec![
            ("error".to_string(), ContextValue::Text("Page not found".to_string())),
            ("status_code".to_string(), ContextValue::Text("404".to_string())),
        ])
    );
}

#[test]
fn error_reply_carries_the_rendered_page() {
    assert_eq!(
        error_reply(404, "Page not found", Some(Ok("<h1>404</h1>".to_string()))),
        Reply { status: 404, content_type: ContentType::HtmlUtf8, body: "<h1>404</h1>".to_string() }
    );
}

#[test]
fn error_reply_falls_back_to_the_bare_error() {
    assert_eq!(
        error_reply(404, "Page not found", Some(Err("broken".to_string()))),
        plain(404, "Page not found")
    );
    assert_eq!(error_reply(503, "Page not found", None), plain(503, "Page not found"));
}

#[test]
fn error_page_is_rendered_from_its_template() {
    let templates = with_template("error.html", "<p>{status_code}: {error}</p>");
    assert_eq!(
        get_error_response(Some(&templates), 404, "Page not found"),
        Reply {
            status: 404,
            content_type: ContentType::HtmlUtf8,
            body: "<p>404: Page not found</p>".to_string(),
        }
    );
}

#[test]
fn error_page_escapes_what_it_shows() {
    let templates = with_template("error.html", "{error}");
    assert_eq!(
        get_error_response(Some(&templates), 404, "<b>"),
        Reply { status: 404, content_type: ContentType::HtmlUtf8, body: "&lt;b&gt;".to_string() }
    );
}

#[test]
fn error_without_templates_is_plain_text() {
    assert_eq!(get_error_response(None, 404, "Page not found"), plain(404, "Page not found"));
}

#[test]
fn error_without_its_template_is_plain_text() {
    let templates = with_template("index.html", "index");
    assert_eq!(
        get_error_response(Some(&templates), 404, "Page not found"),
        plain(404, "Page not found")
    );
}

#[test]
fn error_with_a_failing_template_is_plain_text() {
    let templates = with_template("error.html", "{missing.field}");
    assert_eq!(
        get_error_response(Some(&templates), 500, "Page not found"),
        plain(500, "Page not found")
    );
}

#[test]
fn the_operator_may_pass() {
    assert_eq!(auth_validator("admin", Some("secret"), "admin", "secret"), Ok(()));
    assert_eq!(auth_validator("", Some(""), "", ""), Ok(()));
}

#[test]
fn anyone_else_is_forbidden() {
    let forbidden = Err(plain(403, "Unautorized"));
    assert_eq!(auth_validator("admin", Some("wrong"), "admin", "secret"), forbidden);
    assert_eq!(auth_validator("other", Some("secret"), "admin", "secret"), forbidden);
    assert_eq!(auth_validator("admin", None, "admin", "secret"), forbidden);
    assert_eq!(auth_validator("admin", None, "admin", ""), forbidden);
    assert_eq!(auth_validator("secret", Some("admin"), "admin", "secret"), forbidden);
    assert_eq!(auth_validator("Admin", Some("secret"), "admin", "secret"), forbidden);
    assert_eq!(auth_validator("admin", Some("secret "), "admin", "secret"), forbidden);
}

#[test]
fn same_text_compares_letter_for_letter() {
    assert!(same_text("", ""));
    assert!(same_text("pässword", "pässword"));
    assert!(!same_text("password", "passwore"));
    assert!(!same_text("password", "password1"));
    assert!(!same_text("a", ""));
}

#[test]
fn only_a_missing_page_gets_an_error_page() {
    assert_eq!(error_handlers(), vec![(404, "Page not found")]);
}

#[test]
fn error_page_shows_the_status_it_was_asked_for() {
    let templates = with_template("error.html", "{status_code}");
    assert_eq!(get_error_response(Some(&templates), 503, "x").body, "503");
    assert_eq!(get_error_response(Some(&templates), 404, "x").body, "404");
}

#[test]
fn a_text_that_is_no_template_is_refused() {
    let mut templates = with_template("error.html", "first {error}");
    let refused = add_template(&mut templates, "error.html", "{{ if error }}never closed");
    assert!(refused.is_err());
    assert_eq!(get_error_response(Some(&templates), 404, "x").body, "first x");
}

#[test]
fn a_template_added_again_takes_the_place_of_the_first() {
    let mut templates = with_template("error.html", "first {error}");
    assert_eq!(add_template(&mut templates, "error.html", "second {error}"), Ok(()));
    assert_eq!(get_error_response(Some(&templates), 404, "x").body, "second x");
}

#[test]
fn a_new_set_holds_no_template() {
    assert_eq!(get_error_response(Some(&new_templates()), 404, "x"), plain(404, "x"));
}
