use web_video_player::entry::FsEntry;
use web_video_player::file_browser::browse_dir;
use web_video_player::tree::TreeNode;

fn file(name: &str, path: &str) -> FsEntry {
    FsEntry::file(name.as_bytes().to_vec(), path.as_bytes().to_vec())
}

fn dir(name: &str, path: &str, children: Vec<FsEntry>) -> FsEntry {
    FsEntry::dir(name.as_bytes().to_vec(), path.as_bytes().to_vec(), children)
}

/// A library of some depth, read in no particular order.
fn library(root: &str) -> FsEntry {
    let at = |rest: &str| format!("{root}{rest}");
    dir(
        "media",
        root,
        vec![
            file("zebra.mp4", &at("zebra.mp4")),
            dir(
                "shows",
                &at("shows"),
                vec![
                    file("pilot.mp4", &at("shows/pilot.mp4")),
                    dir(
                        "season 2",
                        &at("shows/season 2"),
                        vec![
                            file("e02.mp4", &at("shows/season 2/e02.mp4")),
                            file("e01.mp4", &at("shows/season 2/e01.mp4")),
                        ],
                    ),
                    dir("Season 1", &at("shows/Season 1"), vec![file("e01.mp4", &at("shows/Season 1/e01.mp4"))]),
                ],
            ),
            file("Alpha.mp4", &at("Alpha.mp4")),
            dir("films", &at("films"), vec![]),
            file("alpha.mp4", &at("alpha.mp4")),
        ],
    )
}

fn opened_files(node: &TreeNode) -> usize {
    match node {
        TreeNode::File { is_opened, .. } => usize::from(*is_opened),
        TreeNode::Dir { entries, .. } => entries.iter().map(opened_files).sum(),
    }
}

fn opened_dirs(node: &TreeNode) -> Vec<String> {
    match node {
        TreeNode::File { .. } => Vec::new(),
        TreeNode::Dir { name, is_opened, entries } => {
            let mut found = Vec::new();
            if *is_opened {
                found.push(name.clone());
            }
            for entry in entries {
                found.extend(opened_dirs(entry));
            }
            found
        }
    }
}

fn is_ordered(node: &TreeNode) -> bool {
    match node {
        TreeNode::File { .. } => true,
        TreeNode::Dir { entries, .. } => {
            let in_order = entries.windows(2).all(|pair| {
                let (a, b) = (&pair[0], &pair[1]);
                (a.is_dir() || !b.is_dir())
                    && (a.is_dir() != b.is_dir() || a.name().as_bytes() <= b.name().as_bytes())
            });
            in_order && entries.iter().all(is_ordered)
        }
    }
}

fn paths(node: &TreeNode) -> Vec<String> {
    match node {
        TreeNode::File { path, .. } => vec![path.clone()],
        TreeNode::Dir { entries, .. } => entries.iter().flat_map(paths).collect(),
    }
}

fn names(node: &TreeNode) -> Vec<String> {
    match node {
        TreeNode::File { name, .. } => vec![name.clone()],
        TreeNode::Dir { name, entries, .. } => {
            let mut found = vec![name.clone()];
            found.extend(entries.iter().flat_map(names));
            found
        }
    }
}

#[test]
fn every_directory_has_its_entries_in_order() {
    let tree = browse_dir(library("/srv/media/"), "/srv/media/", None).unwrap();
    assert!(is_ordered(&tree));
    assert_eq!(
        names(&tree),
        vec![
            "media", "films", "shows", "Season 1", "e01.mp4", "season 2", "e01.mp4", "e02.mp4",
            "pilot.mp4", "Alpha.mp4", "alpha.mp4", "zebra.mp4",
        ]
    );
}

#[test]
fn the_selected_file_is_the_only_one_opened() {
    let selection = "/video/shows/season 2/e01.mp4".to_string();
    let tree = browse_dir(library("/srv/media/"), "/srv/media/", Some(&selection)).unwrap();
    assert_eq!(opened_files(&tree), 1);
}

#[test]
fn no_file_is_opened_when_the_selection_names_none() {
    let selection = "/video/shows/season 3/e01.mp4".to_string();
    let tree = browse_dir(library("/srv/media/"), "/srv/media/", Some(&selection)).unwrap();
    assert_eq!(opened_files(&tree), 0);
}

#[test]
fn two_files_at_one_path_are_both_opened() {
    let videos = dir("v", "/v/", vec![file("a", "/v/a"), file("a", "/v/a")]);
    let selection = "/video/a".to_string();
    let tree = browse_dir(videos, "/v/", Some(&selection)).unwrap();
    assert_eq!(opened_files(&tree), 2);
}

#[test]
fn the_directories_above_the_selected_file_are_opened() {
    let selection = "/video/shows/season 2/e01.mp4".to_string();
    let tree = browse_dir(library("/srv/media/"), "/srv/media/", Some(&selection)).unwrap();
    assert_eq!(opened_dirs(&tree), vec!["media", "shows", "season 2"]);
}

#[test]
fn nothing_is_opened_without_a_selection() {
    let tree = browse_dir(library("/srv/media/"), "/srv/media/", None).unwrap();
    assert_eq!(opened_files(&tree), 0);
    assert!(opened_dirs(&tree).is_empty());
}

#[test]
fn the_root_is_opened_by_any_well_formed_selection() {
    let selection = "/video/nowhere".to_string();
    let tree = browse_dir(library("/srv/media/"), "/srv/media/", Some(&selection)).unwrap();
    assert_eq!(opened_dirs(&tree), vec!["media"]);
}

#[test]
fn no_path_holds_the_videos_root() {
    let tree = browse_dir(library("/srv/media/"), "/srv/media/", None).unwrap();
    for path in paths(&tree) {
        assert!(path.starts_with("/video/"));
        assert!(!path.contains("/srv/media"));
    }
    for name in names(&tree) {
        assert!(!name.is_empty());
        assert!(!name.contains("/srv/media"));
    }
}

#[test]
fn the_tree_is_the_same_wherever_the_root_lies() {
    let selection = "/video/shows/pilot.mp4".to_string();
    assert_eq!(
        browse_dir(library("/srv/media/"), "/srv/media/", Some(&selection)),
        browse_dir(library("/home/me/"), "/home/me/", Some(&selection))
    );
}

#[test]
fn a_root_that_begins_the_url_prefix_begins_every_path() {
    let tree = browse_dir(library("/v/"), "/v", None);
    // Paths do not lie under the root as it is written here: "/v" is taken
    // off, and the separator stays.
    let tree = tree.unwrap();
    for path in paths(&tree) {
        assert!(path.starts_with("/video//"));
        assert!(path.starts_with("/v"));
    }
}

#[test]
fn the_tree_does_not_depend_on_the_order_of_reading() {
    let one = dir(
        "v",
        "/v/",
        vec![file("b", "/v/b"), dir("d", "/v/d", vec![]), file("a", "/v/a"), dir("c", "/v/c", vec![])],
    );
    let other = dir(
        "v",
        "/v/",
        vec![dir("c", "/v/c", vec![]), file("a", "/v/a"), dir("d", "/v/d", vec![]), file("b", "/v/b")],
    );
    let selection = "/video/a".to_string();
    assert_eq!(
        browse_dir(one, "/v/", Some(&selection)),
        browse_dir(other, "/v/", Some(&selection))
    );
}

#[test]
fn the_tree_does_not_depend_on_the_order_of_reading_at_any_depth() {
    let one = dir(
        "v",
        "/v/",
        vec![
            file("b", "/v/b"),
            dir(
                "d",
                "/v/d",
                vec![
                    file("y", "/v/d/y"),
                    dir("e", "/v/d/e", vec![file("q", "/v/d/e/q"), file("p", "/v/d/e/p")]),
                    file("x", "/v/d/x"),
                ],
            ),
            file("a", "/v/a"),
        ],
    );
    let other = dir(
        "v",
        "/v/",
        vec![
            file("a", "/v/a"),
            file("b", "/v/b"),
            dir(
                "d",
                "/v/d",
                vec![
                    dir("e", "/v/d/e", vec![file("p", "/v/d/e/p"), file("q", "/v/d/e/q")]),
                    file("x", "/v/d/x"),
                    file("y", "/v/d/y"),
                ],
            ),
        ],
    );
    let selection = "/video/d/e/p".to_string();
    let first = browse_dir(one, "/v/", Some(&selection));
    assert!(first.is_ok());
    assert_eq!(first, browse_dir(other, "/v/", Some(&selection)));
}
