use web_video_player::screen::{chars_of, would_trip_compiler};
use web_video_player::templates::{add_template, new_templates, HELD_BACK};

/// Hands every text of up to `longest` letters of the alphabet, set between
/// `before` and `after`, to `add_template`, and counts those held back.
fn try_all(alphabet: &[char], longest: usize, before: &str, after: &str) -> usize {
    let mut templates = new_templates();
    let mut held_back = 0;
    let mut texts = vec![String::new()];
    for _ in 0..=longest {
        let mut longer = Vec::new();
        for inner in &texts {
            let text: &'static str = Box::leak(format!("{before}{inner}{after}").into_boxed_str());
            let outcome = add_template(&mut templates, "t", text);
            if would_trip_compiler(text) {
                assert_eq!(outcome, Err(HELD_BACK.to_string()));
                held_back += 1;
            } else {
                assert_ne!(outcome, Err(HELD_BACK.to_string()));
            }
            for letter in alphabet {
                let mut next = inner.clone();
                next.push(*letter);
                longer.push(next);
            }
        }
        texts = longer;
    }
    held_back
}

#[test]
fn no_short_text_breaks_the_compiler() {
    let held_back = try_all(&['{', '}', '#', '\\', 'n', 'o', 't', ' ', '-', 'x'], 5, "", "");
    assert!(held_back > 0);
}

#[test]
fn no_short_if_block_breaks_the_compiler() {
    let alphabet = ['n', 'o', 't', ' ', '-', 'x', 'é', '\u{a0}', '\r', '}'];
    assert!(try_all(&alphabet, 5, "{{ if ", "}}") > 0);
    assert!(try_all(&alphabet, 4, "{{if ", " }} {{ endif }}") > 0);
}

#[test]
fn no_short_block_breaks_the_compiler() {
    let alphabet = ['i', 'f', 'n', 'o', 't', ' ', '-', 'é', '\u{2003}'];
    assert!(try_all(&alphabet, 5, "{{", "}}") > 0);
}

#[test]
fn no_short_tag_breaks_the_compiler() {
    let alphabet = ['{', '}', '#', '-', ' ', '|', '@', '.', 'a', '\n'];
    try_all(&alphabet, 5, "", "");
    try_all(&alphabet, 4, "x", "\\{");
    try_all(&alphabet, 4, "{{ for a in b }}", "{{ endfor }}");
}

#[test]
fn no_short_tail_breaks_the_compiler() {
    let alphabet = ['\\', '{', '}', 'a', ' ', '\n', '-'];
    assert!(try_all(&alphabet, 6, "{a}", "") > 0);
}

#[test]
fn the_three_shapes_are_held_back() {
    assert!(would_trip_compiler("{#}"));
    assert!(would_trip_compiler("\\"));
    assert!(would_trip_compiler("{a} tail\\"));
    assert!(would_trip_compiler("{{ if not }}"));
    assert!(would_trip_compiler("{{ if not -}}x{{ endif }}"));
    assert!(would_trip_compiler("{{ if noté }}x{{ endif }}"));
    assert!(would_trip_compiler("{{ if not\u{a0}x }}x{{ endif }}"));
    assert!(would_trip_compiler("{{ if not \u{2003}}}x{{ endif }}"));
}

#[test]
fn what_is_held_back_beyond_the_three_shapes() {
    // The screen does not look for the block: a dangling `not` is held back
    // wherever it stands.
    assert!(would_trip_compiler("why not}"));
    assert!(would_trip_compiler("a knot - }"));
    assert!(would_trip_compiler("a comment {#} in the middle of a line {"));
    assert!(would_trip_compiler("{ value }\\"));
}

#[test]
fn ordinary_templates_pass() {
    assert!(!would_trip_compiler(""));
    assert!(!would_trip_compiler("plain text, nothing more"));
    assert!(!would_trip_compiler("{{ if not video_path }}none{{ endif }}"));
    assert!(!would_trip_compiler("{{ if not video_path -}} none {{- endif }}"));
    assert!(!would_trip_compiler("{# a comment #}{#-#}"));
    assert!(!would_trip_compiler("not found, or nothing"));
    assert!(!would_trip_compiler("a\\{b\\\\c"));
    assert!(!would_trip_compiler("{{ for entry in entries }}{entry.name}{{ endfor }}"));
    assert!(!would_trip_compiler("not x } knotted"));
    assert!(!would_trip_compiler("this is not"));
}

#[test]
fn chars_of_gives_the_letters() {
    assert_eq!(chars_of("aé→"), vec!['a', 'é', '→']);
    assert_eq!(chars_of(""), Vec::<char>::new());
}

#[test]
fn a_text_that_is_held_back_leaves_the_set_as_it_was() {
    let mut templates = new_templates();
    assert_eq!(add_template(&mut templates, "login.html", "first"), Ok(()));
    assert_eq!(add_template(&mut templates, "login.html", "{#}"), Err(HELD_BACK.to_string()));
    assert_eq!(add_template(&mut templates, "login.html", "x\\"), Err(HELD_BACK.to_string()));
    assert_eq!(
        add_template(&mut templates, "login.html", "{{ if not }}"),
        Err(HELD_BACK.to_string())
    );
    assert_eq!(web_video_player::pages::login_form(&templates).body, "first");
}
