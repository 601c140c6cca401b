//! The tree of the videos directory: one node for each directory and file,
//! directories before files, each group in the order of the names, and a mark
//! on the selected video and on the directories that lead to it.

use crate::entry::{FsContent, FsEntry};
use crate::error::BrowseError;
use crate::order::{
    has_name, lemma_sort_by_name_ascends, lemma_sort_by_name_contains,
    lemma_sort_by_name_permutes, lemma_sort_by_name_stable, name_le, names_ascend, place_of,
    sort_by_name,
};
use crate::selection_laws::{
    count_files, is_selection, lemma_nothing_opened_without_selection,
    lemma_opened_files_are_selected, lemma_spine_marked, nothing_opened, opened_files,
    spine_marked,
};
use crate::text::{starts_with, strip_prefix, utf8_text};
use crate::tree::{views, NodeView, TreeNode};
use crate::tree_laws::{
    lemma_entries_of_tree, lemma_names_present, lemma_tree_is_ordered, lemma_urls_prefixed,
    names_present, ordered, urls_prefixed,
};
use vstd::prelude::*;
use vstd::string::*;
use vstd::utf8::*;

verus! {

/// The URL path under which the videos are served. The selection begins
/// with it too.
pub const VIDEO_URL_PREFIX: &'static str = "/video/";

/// `VIDEO_URL_PREFIX` as a row of characters.
pub open spec fn video_url_prefix() -> Seq<char> {
    seq!['/', 'v', 'i', 'd', 'e', 'o', '/']
}

/// The constant holds the characters of `video_url_prefix`.
pub proof fn lemma_video_url_prefix()
    ensures
        VIDEO_URL_PREFIX@ == video_url_prefix(),
{
    reveal_strlit("/video/");
    assert(VIDEO_URL_PREFIX@ =~= video_url_prefix());
}

/// The selection as a value: the text of the opened video's URL path, if one
/// is opened.
pub open spec fn selected(opened_path: Option<&String>) -> Option<Seq<char>> {
    match opened_path {
        Some(path) => Some(path@),
        None => None,
    }
}

/// A node's name: the last component of its path as text. A path without a
/// last component has no name, and bytes that are not UTF-8 are no text.
pub open spec fn leaf_text(name: Seq<u8>) -> Result<Seq<char>, BrowseError> {
    if name.len() > 0 && valid_utf8(name) {
        Ok(decode_utf8(name))
    } else {
        Err(BrowseError::NameEncoding)
    }
}

/// A path with the videos root taken off its front, letter for letter.
pub open spec fn relative_to(path: Seq<u8>, root: Seq<char>) -> Result<Seq<char>, BrowseError> {
    if !valid_utf8(path) {
        Err(BrowseError::NameEncoding)
    } else if !root.is_prefix_of(decode_utf8(path)) {
        Err(BrowseError::FsInternal)
    } else {
        Ok(decode_utf8(path).skip(root.len() as int))
    }
}

/// The URL path of the file at a relative path.
pub open spec fn video_url(relative: Seq<char>) -> Seq<char> {
    video_url_prefix() + relative
}

/// Whether the selection lies at or below a relative path: what follows the
/// URL prefix in the selection begins with the relative path, letter for
/// letter. A selection without the URL prefix is malformed.
pub open spec fn leads_to_selection(relative: Seq<char>, selection: Option<Seq<char>>) -> Result<
    bool,
    BrowseError,
> {
    match selection {
        None => Ok(false),
        Some(url) => if video_url_prefix().is_prefix_of(url) {
            Ok(relative.is_prefix_of(url.skip(video_url_prefix().len() as int)))
        } else {
            Err(BrowseError::SelectionMalformed)
        },
    }
}

/// The node of a directory before its entries are filled in.
pub open spec fn dir_node(entry: FsEntry, root: Seq<char>, selection: Option<Seq<char>>) -> Result<
    NodeView,
    BrowseError,
> {
    match leaf_text(entry.name@) {
        Err(e) => Err(e),
        Ok(name) => match relative_to(entry.path@, root) {
            Err(e) => Err(e),
            Ok(relative) => match leads_to_selection(relative, selection) {
                Err(e) => Err(e),
                Ok(is_opened) => Ok(NodeView::Dir { name, is_opened, entries: Seq::empty() }),
            },
        },
    }
}

/// The node of a file.
pub open spec fn file_node(entry: FsEntry, root: Seq<char>, selection: Option<Seq<char>>) -> Result<
    NodeView,
    BrowseError,
> {
    match leaf_text(entry.name@) {
        Err(e) => Err(e),
        Ok(name) => match relative_to(entry.path@, root) {
            Err(e) => Err(e),
            Ok(relative) => Ok(
                NodeView::File {
                    name,
                    is_opened: selection == Some(video_url(relative)),
                    path: video_url(relative),
                },
            ),
        },
    }
}

/// The directories among the children of a directory, in the order in which
/// they were read.
pub open spec fn dirs_of(children: Seq<FsEntry>) -> Seq<FsEntry> {
    children.filter(|child: FsEntry| child.is_dir())
}

/// The files among the children of a directory, in the order in which they
/// were read.
pub open spec fn files_of(children: Seq<FsEntry>) -> Seq<FsEntry> {
    children.filter(|child: FsEntry| !child.is_dir())
}

/// The nodes of a row of results, or the first failure in it.
pub open spec fn gather(results: Seq<Result<NodeView, BrowseError>>) -> Result<
    Seq<NodeView>,
    BrowseError,
>
    decreases results.len(),
{
    if results.len() == 0 {
        Ok(Seq::empty())
    } else {
        match gather(results.drop_last()) {
            Err(e) => Err(e),
            Ok(nodes) => match results.last() {
                Err(e) => Err(e),
                Ok(node) => Ok(nodes.push(node)),
            },
        }
    }
}

/// The nodes of a row of files, or why one could not be made.
pub open spec fn file_nodes(files: Seq<FsEntry>, root: Seq<char>, selection: Option<Seq<char>>) -> Seq<
    Result<NodeView, BrowseError>,
> {
    files.map_values(|child: FsEntry| file_node(child, root, selection))
}

/// The tree of a directory. Its entries are the trees of its directories in
/// the order of their names, then the nodes of its files in the order of
/// theirs. The walk goes in that order, and the first failure on it is the
/// result. A directory that could not be read fails the walk, and so does
/// anything that is no directory where one is walked.
///
/// `lemma_tree_of_dir` says the same in one step.
pub open spec fn tree_of(dir: FsEntry, root: Seq<char>, selection: Option<Seq<char>>) -> Result<
    NodeView,
    BrowseError,
>
    decreases dir, 1nat, 0nat,
{
    match dir_node(dir, root, selection) {
        Err(e) => Err(e),
        Ok(node) => match dir.content {
            FsContent::Dir(children) => {
                let dirs = sort_by_name(dirs_of(children@));
                let files = sort_by_name(files_of(children@));
                let walked = trees_below(dir, dirs, dirs.len(), root, selection) + file_nodes(
                    files,
                    root,
                    selection,
                );
                match gather(walked) {
                    Err(e) => Err(e),
                    Ok(entries) => Ok(
                        NodeView::Dir { name: node.name(), is_opened: node.is_opened(), entries },
                    ),
                }
            },
            _ => Err(BrowseError::FsEnumerate),
        },
    }
}

/// The trees of the first `count` of `dirs`, which are children of `parent`.
/// That each is a child is what shows that the walk ends.
pub open spec fn trees_below(
    parent: FsEntry,
    dirs: Seq<FsEntry>,
    count: nat,
    root: Seq<char>,
    selection: Option<Seq<char>>,
) -> Seq<Result<NodeView, BrowseError>>
    decreases parent, 0nat, count,
{
    if count == 0 || count > dirs.len() {
        Seq::empty()
    } else {
        let child = dirs[count - 1];
        trees_below(parent, dirs, (count - 1) as nat, root, selection).push(
            if parent.children().contains(child) {
                tree_of(child, root, selection)
            } else {
                Err(BrowseError::FsInternal)
            },
        )
    }
}

/// The trees of a row of directories, or why one could not be built.
pub open spec fn subtrees(dirs: Seq<FsEntry>, root: Seq<char>, selection: Option<Seq<char>>) -> Seq<
    Result<NodeView, BrowseError>,
> {
    dirs.map_values(|child: FsEntry| tree_of(child, root, selection))
}

/// What the walk through the children of a directory gives, in the order of
/// the walk: the trees of the directories by name, then the nodes of the
/// files by name.
pub open spec fn walk(children: Seq<FsEntry>, root: Seq<char>, selection: Option<Seq<char>>) -> Seq<
    Result<NodeView, BrowseError>,
> {
    subtrees(sort_by_name(dirs_of(children)), root, selection) + file_nodes(
        sort_by_name(files_of(children)),
        root,
        selection,
    )
}

/// The tree of a directory that was read, said in one step: its own node,
/// and as entries what the walk through its children gives.
pub proof fn lemma_tree_of_dir(dir: FsEntry, root: Seq<char>, selection: Option<Seq<char>>)
    requires
        dir.content is Dir,
    ensures
        tree_of(dir, root, selection) == match dir_node(dir, root, selection) {
            Err(e) => Err::<NodeView, BrowseError>(e),
            Ok(node) => match gather(walk(dir.children(), root, selection)) {
                Err(e) => Err(e),
                Ok(entries) => Ok(
                    NodeView::Dir { name: node.name(), is_opened: node.is_opened(), entries },
                ),
            },
        },
{
    let dirs = sort_by_name(dirs_of(dir.children()));
    lemma_trees_below(dir, dirs.len(), root, selection);
    assert(dirs.take(dirs.len() as int) =~= dirs);
}

/// The trees of the first directories of a parent's sorted row are their
/// trees indeed: each of them is a child of the parent.
proof fn lemma_trees_below(
    parent: FsEntry,
    count: nat,
    root: Seq<char>,
    selection: Option<Seq<char>>,
)
    requires
        count <= sort_by_name(dirs_of(parent.children())).len(),
    ensures
        trees_below(parent, sort_by_name(dirs_of(parent.children())), count, root, selection)
            == subtrees(
            sort_by_name(dirs_of(parent.children())).take(count as int),
            root,
            selection,
        ),
    decreases count,
{
    let dirs = sort_by_name(dirs_of(parent.children()));
    if count > 0 {
        lemma_trees_below(parent, (count - 1) as nat, root, selection);
        lemma_sorted_dir_is_child(parent.children(), count - 1);
        assert(dirs.take(count as int).drop_last() =~= dirs.take(count - 1));
    }
    assert(trees_below(parent, dirs, count, root, selection) =~= subtrees(
        dirs.take(count as int),
        root,
        selection,
    ));
}

/// What a call returned, with the node as a value.
pub open spec fn outcome(r: Result<TreeNode, BrowseError>) -> Result<NodeView, BrowseError> {
    match r {
        Ok(node) => Ok(node@),
        Err(e) => Err(e),
    }
}

/// The name of a node as text.
pub fn leaf_name(name: &[u8]) -> (r: Result<&str, BrowseError>)
    ensures
        match r {
            Ok(text) => leaf_text(name@) == Ok::<Seq<char>, BrowseError>(text@),
            Err(e) => leaf_text(name@) == Err::<Seq<char>, BrowseError>(e),
        },
{
    if name.len() == 0 {
        return Err(BrowseError::NameEncoding);
    }
    match utf8_text(name) {
        Some(text) => Ok(text),
        None => Err(BrowseError::NameEncoding),
    }
}

/// A path as text, without the videos root at its front.
pub fn relative_path<'a>(path: &'a [u8], videos_dir: &str) -> (r: Result<&'a str, BrowseError>)
    ensures
        match r {
            Ok(text) => relative_to(path@, videos_dir@) == Ok::<Seq<char>, BrowseError>(text@),
            Err(e) => relative_to(path@, videos_dir@) == Err::<Seq<char>, BrowseError>(e),
        },
{
    match utf8_text(path) {
        None => Err(BrowseError::NameEncoding),
        Some(text) => match strip_prefix(text, videos_dir) {
            None => Err(BrowseError::FsInternal),
            Some(relative) => Ok(relative),
        },
    }
}

/// The node of the directory `entry`, with no entries yet. It is marked as
/// opened when the selection lies in it or below it: when what follows the
/// URL prefix in the selection begins with what follows the videos root in
/// the directory's path.
///
/// Fails with `NameEncoding` where the name is empty or the name or the path
/// is not UTF-8, with `FsInternal` where the path does not begin with the
/// videos root, and with `SelectionMalformed` where the selection does not
/// begin with the URL prefix, in this order.
pub fn make_dir(entry: &FsEntry, videos_dir: &str, opened_path: Option<&String>) -> (r: Result<
    TreeNode,
    BrowseError,
>)
    ensures
        outcome(r) == dir_node(*entry, videos_dir@, selected(opened_path)),
{
    let name = match leaf_name(entry.name.as_slice()) {
        Ok(name) => name,
        Err(e) => {
            return Err(e);
        },
    };
    let relative = match relative_path(entry.path.as_slice(), videos_dir) {
        Ok(relative) => relative,
        Err(e) => {
            return Err(e);
        },
    };
    proof {
        lemma_video_url_prefix();
    }
    let is_opened = match opened_path {
        None => false,
        Some(url) => match strip_prefix(url.as_str(), VIDEO_URL_PREFIX) {
            None => {
                return Err(BrowseError::SelectionMalformed);
            },
            Some(tail) => starts_with(tail, relative),
        },
    };
    let node = TreeNode::Dir { name: name.to_owned(), is_opened, entries: Vec::new() };
    assert(node@.entries() =~= Seq::empty());
    Ok(node)
}

/// The node of the file `entry`. Its path is the URL prefix and what follows
/// the videos root in the file's path. It is marked as opened when the
/// selection is that path.
///
/// Fails with `NameEncoding` where the name is empty or the name or the path
/// is not UTF-8, and with `FsInternal` where the path does not begin with the
/// videos root, in this order.
pub fn make_file(entry: &FsEntry, videos_dir: &str, opened_path: Option<&String>) -> (r: Result<
    TreeNode,
    BrowseError,
>)
    ensures
        outcome(r) == file_node(*entry, videos_dir@, selected(opened_path)),
{
    let name = match leaf_name(entry.name.as_slice()) {
        Ok(name) => name,
        Err(e) => {
            return Err(e);
        },
    };
    let relative = match relative_path(entry.path.as_slice(), videos_dir) {
        Ok(relative) => relative,
        Err(e) => {
            return Err(e);
        },
    };
    proof {
        lemma_video_url_prefix();
    }
    let full_video_url = VIDEO_URL_PREFIX.to_owned().concat(relative);
    let is_opened = match opened_path {
        None => false,
        Some(url) => *url == full_video_url,
    };
    Ok(TreeNode::File { name: name.to_owned(), is_opened, path: full_video_url })
}

/// The children of a directory in two rows, the directories and the files,
/// each in the order in which they were read.
pub fn partition_entries(children: Vec<FsEntry>) -> (r: (Vec<FsEntry>, Vec<FsEntry>))
    ensures
        r.0@ == dirs_of(children@),
        r.1@ == files_of(children@),
{
    let mut dirs: Vec<FsEntry> = Vec::new();
    let mut files: Vec<FsEntry> = Vec::new();
    let ghost all = children@;
    for child in it: children
        invariant
            it.seq() == all,
            dirs@ == dirs_of(all.take(it.index() as int)),
            files@ == files_of(all.take(it.index() as int)),
    {
        proof {
            let k = it.index() as int;
            assert(all.take(k + 1).drop_last() =~= all.take(k));
            reveal(Seq::filter);
        }
        if child.is_directory() {
            dirs.push(child);
        } else {
            files.push(child);
        }
    }
    proof {
        assert(all.take(all.len() as int) =~= all);
    }
    (dirs, files)
}

/// Puts the entries in the order of their names, byte by byte. The row holds
/// the same entries afterwards, and entries of one name keep the order in
/// which they came.
pub fn sort_direntries(entries: &mut Vec<FsEntry>)
    ensures
        final(entries)@ == sort_by_name(old(entries)@),
        names_ascend(final(entries)@),
        final(entries)@.to_multiset() == old(entries)@.to_multiset(),
        forall|name: Seq<u8>|
            #[trigger] final(entries)@.filter(has_name(name)) == old(entries)@.filter(
                has_name(name),
            ),
{
    let mut unsorted: Vec<FsEntry> = Vec::new();
    core::mem::swap(entries, &mut unsorted);
    entries.clear();
    let ghost all = unsorted@;
    for entry in it: unsorted
        invariant
            it.seq() == all,
            entries@ == sort_by_name(all.take(it.index() as int)),
    {
        proof {
            let k = it.index() as int;
            assert(all.take(k + 1).drop_last() =~= all.take(k));
            assert(entries@.take(entries@.len() as int) =~= entries@);
        }
        let mut place: usize = entries.len();
        while place > 0 && !name_le(entries[place - 1].name.as_slice(), entry.name.as_slice())
            invariant
                place <= entries.len(),
                place_of(entries@, entry) == place_of(entries@.take(place as int), entry),
            decreases place,
        {
            proof {
                assert(entries@.take(place as int).drop_last() =~= entries@.take(place - 1));
            }
            place -= 1;
        }
        entries.insert(place, entry);
    }
    proof {
        assert(all.take(all.len() as int) =~= all);
        lemma_sort_by_name_ascends(all);
        lemma_sort_by_name_permutes(all);
        assert forall|name: Seq<u8>| #[trigger]
            sort_by_name(all).filter(has_name(name)) == all.filter(has_name(name)) by {
            lemma_sort_by_name_stable(all, name);
        }
    }
}

/// Makes the node of each file and puts it behind `entries`, up to the first
/// file whose node cannot be made.
fn append_files(
    files: Vec<FsEntry>,
    videos_dir: &str,
    opened_path: Option<&String>,
    entries: &mut Vec<TreeNode>,
) -> (r: Result<(), BrowseError>)
    ensures
        match gather(file_nodes(files@, videos_dir@, selected(opened_path))) {
            Ok(nodes) => r is Ok && views(final(entries)@) == views(old(entries)@) + nodes,
            Err(e) => r == Err::<(), BrowseError>(e),
        },
{
    let ghost results = file_nodes(files@, videos_dir@, selected(opened_path));
    let ghost before = views(entries@);
    proof {
        assert(results.take(0) =~= Seq::empty());
        assert(before + Seq::empty() =~= before);
    }
    for child in it: files
        invariant
            it.seq() == files@,
            results == file_nodes(files@, videos_dir@, selected(opened_path)),
            gather(results.take(it.index() as int)) matches Ok(nodes) && views(entries@) == before
                + nodes,
    {
        let ghost k = it.index() as int;
        let ghost nodes = gather(results.take(k))->Ok_0;
        proof {
            assert(results.take(k + 1).drop_last() =~= results.take(k));
        }
        match make_file(&child, videos_dir, opened_path) {
            Ok(node) => {
                proof {
                    assert(views(entries@.push(node)) =~= (before + nodes).push(node@));
                    assert((before + nodes).push(node@) =~= before + nodes.push(node@));
                }
                entries.push(node);
            },
            Err(e) => {
                proof {
                    lemma_gather_append(results.take(k + 1), results.skip(k + 1));
                    assert(results.take(k + 1) + results.skip(k + 1) =~= results);
                }
                return Err(e);
            },
        }
    }
    proof {
        assert(results.take(results.len() as int) =~= results);
    }
    Ok(())
}

/// The tree of the directory `dir`, with everything that was read below it.
///
/// `videos_dir` is the videos root as text: it is taken off the front of
/// every path. `opened_path` is the URL path of the opened video, if one is
/// opened.
///
/// The directory's own node is made first, then its directories are walked
/// in the order of their names, then the nodes of its files are made in the
/// order of theirs. The first failure on this way is the result: that of
/// `make_dir` or `make_file`, or `FsEnumerate` for a directory that could not
/// be read.
///
/// In the tree every node has a name; directories stand before files, each
/// group in the order of the names; the path of every file begins with the
/// URL prefix; the opened files are the files whose URL path is the
/// selection; without a selection nothing is opened; and, where paths nest,
/// every directory above an opened file is opened.
pub fn browse_dir(dir: FsEntry, videos_dir: &str, opened_path: Option<&String>) -> (r: Result<
    TreeNode,
    BrowseError,
>)
    ensures
        outcome(r) == tree_of(dir, videos_dir@, selected(opened_path)),
        r is Ok ==> ({
            let tree = r->Ok_0@;
            &&& tree is Dir
            &&& names_present(tree)
            &&& ordered(tree)
            &&& urls_prefixed(tree)
            &&& opened_files(tree) == count_files(
                dir,
                is_selection(videos_dir@, selected(opened_path)),
            )
            &&& opened_path is None ==> nothing_opened(tree)
            &&& dir.paths_nest() ==> spine_marked(tree)
        }),
    decreases dir,
{
    let result = match make_dir(&dir, videos_dir, opened_path) {
        Ok(node) => node,
        Err(e) => {
            return Err(e);
        },
    };
    let children = match dir.content {
        FsContent::Dir(children) => children,
        _ => {
            return Err(BrowseError::FsEnumerate);
        },
    };
    let ghost root = videos_dir@;
    let ghost selection = selected(opened_path);
    let ghost read = children@;
    let (mut dirs, mut files) = partition_entries(children);
    sort_direntries(&mut dirs);
    sort_direntries(&mut files);

    let ghost dir_results = subtrees(dirs@, root, selection);
    let ghost file_results = file_nodes(files@, root, selection);
    let mut entries: Vec<TreeNode> = Vec::new();
    proof {
        assert(dir_results.take(0) =~= Seq::empty());
        assert(views(entries@) =~= Seq::empty());
    }

    // The directories come first, each with all that is below it.
    for child in it: dirs
        invariant
            it.seq() == sort_by_name(dirs_of(read)),
            dir.content == FsContent::Dir(children),
            read == children@,
            root == videos_dir@,
            selection == selected(opened_path),
            dir_node(dir, root, selection) is Ok,
            dir_results == subtrees(it.seq(), root, selection),
            file_results == file_nodes(sort_by_name(files_of(read)), root, selection),
            gather(dir_results.take(it.index() as int)) == Ok::<Seq<NodeView>, BrowseError>(
                views(entries@),
            ),
    {
        let ghost k = it.index() as int;
        proof {
            lemma_sorted_dir_is_child(read, k);
            let i = choose|i: int| 0 <= i < read.len() && read[i] == child;
            assert(children@[i] == child);
            assert(dir_results.take(k + 1).drop_last() =~= dir_results.take(k));
        }
        match browse_dir(child, videos_dir, opened_path) {
            Ok(node) => {
                proof {
                    assert(views(entries@.push(node)) =~= views(entries@).push(node@));
                }
                entries.push(node);
            },
            Err(e) => {
                proof {
                    lemma_tree_of_dir(dir, root, selection);
                    lemma_gather_append(
                        dir_results.take(k + 1),
                        dir_results.skip(k + 1) + file_results,
                    );
                    assert(dir_results.take(k + 1) + (dir_results.skip(k + 1) + file_results)
                        =~= dir_results + file_results);
                }
                return Err(e);
            },
        }
    }
    proof {
        lemma_tree_of_dir(dir, root, selection);
        assert(dir_results.take(dir_results.len() as int) =~= dir_results);
        lemma_gather_append(dir_results, file_results);
    }

    // The files follow.
    match append_files(files, videos_dir, opened_path, &mut entries) {
        Ok(()) => {
            proof {
                lemma_entries_of_tree(dir, root, selection);
                lemma_names_present(dir, root, selection);
                lemma_tree_is_ordered(dir, root, selection);
                lemma_urls_prefixed(dir, root, selection);
                lemma_opened_files_are_selected(dir, root, selection);
                if opened_path is None {
                    lemma_nothing_opened_without_selection(dir, root);
                }
                if dir.paths_nest() {
                    lemma_spine_marked(dir, root, selection);
                }
            }
            Ok(result.with_entries(entries))
        },
        Err(e) => Err(e),
    }
}

/// Every directory in the sorted row is one of the children.
proof fn lemma_sorted_dir_is_child(children: Seq<FsEntry>, k: int)
    requires
        0 <= k < sort_by_name(dirs_of(children)).len(),
    ensures
        children.contains(sort_by_name(dirs_of(children))[k]),
{
    let child = sort_by_name(dirs_of(children))[k];
    assert(sort_by_name(dirs_of(children)).contains(child));
    lemma_sort_by_name_contains(dirs_of(children), child);
    children.lemma_filter_contains_rev(|child: FsEntry| child.is_dir(), child);
}

/// Two rows of results behind one another: the first failure of the first
/// row, else that of the second, else the nodes of both.
pub proof fn lemma_gather_append(
    first: Seq<Result<NodeView, BrowseError>>,
    second: Seq<Result<NodeView, BrowseError>>,
)
    ensures
        gather(first + second) == match gather(first) {
            Err(e) => Err::<Seq<NodeView>, BrowseError>(e),
            Ok(a) => match gather(second) {
                Err(e) => Err(e),
                Ok(b) => Ok(a + b),
            },
        },
    decreases second.len(),
{
    if second.len() == 0 {
        assert(first + second =~= first);
        if gather(first) is Ok {
            assert(gather(first)->Ok_0 + Seq::<NodeView>::empty() =~= gather(first)->Ok_0);
        }
    } else {
        lemma_gather_append(first, second.drop_last());
        assert((first + second).drop_last() =~= first + second.drop_last());
        if gather(first) is Ok && gather(second.drop_last()) is Ok && second.last() is Ok {
            let a = gather(first)->Ok_0;
            let b = gather(second.drop_last())->Ok_0;
            assert((a + b).push(second.last()->Ok_0) =~= a + b.push(second.last()->Ok_0));
        }
    }
}

} // verus!
