use web_video_player::context::ContextValue;
use web_video_player::error::BrowseError;
use web_video_player::entry::{FsContent, FsEntry};
use web_video_player::tree::TreeNode;

fn a_file() -> TreeNode {
    TreeNode::File { name: "a.mp4".to_string(), is_opened: true, path: "/video/a.mp4".to_string() }
}

fn a_dir() -> TreeNode {
    TreeNode::Dir { name: "sub".to_string(), is_opened: false, entries: vec![a_file()] }
}

#[test]
fn a_directory_node_reads_as_dir() {
    let node = a_dir();
    assert!(node.is_dir());
    assert_eq!(node.kind(), "dir");
    assert_eq!(node.name(), "sub");
    assert!(!node.is_opened());
    assert_eq!(node.entries(), Some(&vec![a_file()]));
    assert_eq!(node.path(), None);
}

#[test]
fn a_file_node_reads_as_file() {
    let node = a_file();
    assert!(!node.is_dir());
    assert_eq!(node.kind(), "file");
    assert_eq!(node.name(), "a.mp4");
    assert!(node.is_opened());
    assert_eq!(node.entries(), None);
    assert_eq!(node.path(), Some("/video/a.mp4"));
}

#[test]
fn with_entries_fills_a_directory() {
    let empty = TreeNode::Dir { name: "sub".to_string(), is_opened: false, entries: vec![] };
    assert_eq!(empty.with_entries(vec![a_file()]), a_dir());
    assert_eq!(a_file().with_entries(vec![a_dir()]), a_file());
}

#[test]
fn entries_know_what_they_are() {
    let file = FsEntry::file(b"a".to_vec(), b"/v/a".to_vec());
    let dir = FsEntry::dir(b"d".to_vec(), b"/v/d".to_vec(), vec![]);
    let unreadable = FsEntry::unreadable(b"u".to_vec(), b"/v/u".to_vec());
    assert!(!file.is_directory());
    assert!(dir.is_directory());
    assert!(unreadable.is_directory());
    assert_eq!(file.name, b"a".to_vec());
    assert_eq!(file.path, b"/v/a".to_vec());
    assert!(matches!(file.content, FsContent::File));
    assert!(matches!(dir.content, FsContent::Dir(ref children) if children.is_empty()));
    assert!(matches!(unreadable.content, FsContent::Unreadable));
}

#[test]
fn errors_describe_themselves() {
    assert_eq!(BrowseError::FsEnumerate.describe(), "directory cannot be read");
    assert_eq!(BrowseError::NameEncoding.describe(), "name is not text");
    assert_eq!(
        BrowseError::SelectionMalformed.describe(),
        "selection lacks the video URL prefix"
    );
    assert_eq!(BrowseError::FsInternal.describe(), "path is not under the videos root");
}

#[test]
fn a_file_node_is_read_by_the_template_as_a_record() {
    assert_eq!(
        a_file().to_value(),
        ContextValue::Record(vec![
            ("is_dir".to_string(), ContextValue::Bool(false)),
            ("type".to_string(), ContextValue::Text("file".to_string())),
            ("name".to_string(), ContextValue::Text("a.mp4".to_string())),
            ("path".to_string(), ContextValue::Text("/video/a.mp4".to_string())),
            ("is_opened".to_string(), ContextValue::Bool(true)),
        ])
    );
}

#[test]
fn a_directory_node_is_read_by_the_template_as_a_record() {
    assert_eq!(
        a_dir().to_value(),
        ContextValue::Record(vec![
            ("is_dir".to_string(), ContextValue::Bool(true)),
            ("type".to_string(), ContextValue::Text("dir".to_string())),
            ("name".to_string(), ContextValue::Text("sub".to_string())),
            ("is_opened".to_string(), ContextValue::Bool(false)),
            ("entries".to_string(), ContextValue::List(vec![a_file().to_value()])),
        ])
    );
}

#[test]
fn an_empty_directory_has_an_empty_list_of_entries() {
    let empty = TreeNode::Dir { name: "v".to_string(), is_opened: true, entries: vec![] };
    assert_eq!(
        empty.to_value(),
        ContextValue::Record(vec![
            ("is_dir".to_string(), ContextValue::Bool(true)),
            ("type".to_string(), ContextValue::Text("dir".to_string())),
            ("name".to_string(), ContextValue::Text("v".to_string())),
            ("is_opened".to_string(), ContextValue::Bool(true)),
            ("entries".to_string(), ContextValue::List(vec![])),
        ])
    );
}

#[test]
fn context_values_are_made_from_their_parts() {
    assert_eq!(ContextValue::text("x"), ContextValue::Text("x".to_string()));
    assert_eq!(
        ContextValue::list(vec![ContextValue::Null, ContextValue::Bool(true)]),
        ContextValue::List(vec![ContextValue::Null, ContextValue::Bool(true)])
    );
    assert_eq!(
        ContextValue::record(vec![("k".to_string(), ContextValue::Null)]),
        ContextValue::Record(vec![("k".to_string(), ContextValue::Null)])
    );
}
