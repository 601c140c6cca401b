//! What holds of the marks in every tree that `browse_dir` builds: which
//! files are marked as opened, how many, and which directories with them.

use crate::entry::{FsContent, FsEntry};
use crate::error::BrowseError;
use crate::file_browser::{dir_node, dirs_of, file_node, files_of, tree_of, video_url_prefix};
use crate::order::{lemma_place_of, place_of, sort_by_name};
use crate::text::lemma_prefix_of_encoding;
use crate::tree::NodeView;
use crate::tree_laws::{lemma_dir_node, lemma_entries_of_tree, lemma_file_node};
use vstd::prelude::*;
use vstd::utf8::*;

verus! {

/// The number of files at or below an entry of which `wanted` holds.
pub open spec fn count_files(entry: FsEntry, wanted: spec_fn(FsEntry) -> bool) -> nat
    decreases entry,
{
    match entry.content {
        FsContent::File => if wanted(entry) {
            1
        } else {
            0
        },
        FsContent::Dir(children) => count_files_in(children@, wanted),
        FsContent::Unreadable => 0,
    }
}

/// The number of files at or below a row of entries of which `wanted` holds.
pub open spec fn count_files_in(entries: Seq<FsEntry>, wanted: spec_fn(FsEntry) -> bool) -> nat
    decreases entries,
{
    if entries.len() == 0 {
        0
    } else {
        count_files_in(entries.drop_last(), wanted) + count_files(entries.last(), wanted)
    }
}

/// Every directory in the tree that is marked as opened has an opened file
/// in it or below it.
pub open spec fn only_spine_marked(node: NodeView) -> bool
    decreases node,
{
    &&& node.is_dir() && node.is_opened() ==> opened_files(node) > 0
    &&& forall|i: int|
        0 <= i < node.entries().len() ==> only_spine_marked(#[trigger] node.entries()[i])
}

/// Every directory at or below the entry whose path begins `path` has a file
/// at `path` in it or below it: a path begins `path` only where it leads
/// there.
pub open spec fn begins_only_above(entry: FsEntry, path: Seq<u8>) -> bool
    decreases entry,
{
    match entry.content {
        FsContent::Dir(children) => {
            &&& entry.path@.is_prefix_of(path) ==> count_files(entry, has_path(path)) > 0
            &&& forall|i: int|
                0 <= i < children@.len() ==> begins_only_above(#[trigger] children@[i], path)
        },
        _ => true,
    }
}

/// Of a file: that its URL path is the selection.
pub open spec fn is_selection(root: Seq<char>, selection: Option<Seq<char>>) -> spec_fn(
    FsEntry,
) -> bool {
    |file: FsEntry| file_node(file, root, selection) matches Ok(node) && node.is_opened()
}

/// Of a file: that it stands at the given path.
pub open spec fn has_path(path: Seq<u8>) -> spec_fn(FsEntry) -> bool {
    |file: FsEntry| file.path@ == path
}

/// No two files at or below the entry stand at one path.
pub open spec fn paths_distinct(entry: FsEntry) -> bool {
    forall|path: Seq<u8>| #[trigger] count_files(entry, has_path(path)) <= 1
}

/// The path, in bytes, of the file that a selection names: the videos root
/// and what follows the URL prefix in the selection.
pub open spec fn selected_path(root: Seq<char>, url: Seq<char>) -> Seq<u8> {
    encode_utf8(root + url.skip(video_url_prefix().len() as int))
}

/// No node in the tree is marked as opened.
pub open spec fn nothing_opened(node: NodeView) -> bool
    decreases node,
{
    &&& !node.is_opened()
    &&& forall|i: int|
        0 <= i < node.entries().len() ==> nothing_opened(#[trigger] node.entries()[i])
}

/// The number of files in the tree that are marked as opened.
pub open spec fn opened_files(node: NodeView) -> nat
    decreases node,
{
    match node {
        NodeView::File { is_opened, .. } => if is_opened {
            1
        } else {
            0
        },
        NodeView::Dir { entries, .. } => opened_files_in(entries),
    }
}

/// The number of files in a row of trees that are marked as opened.
pub open spec fn opened_files_in(entries: Seq<NodeView>) -> nat
    decreases entries,
{
    if entries.len() == 0 {
        0
    } else {
        opened_files_in(entries.drop_last()) + opened_files(entries.last())
    }
}

/// Every directory in the tree with an opened file in it or below it is
/// marked as opened itself.
pub open spec fn spine_marked(node: NodeView) -> bool
    decreases node,
{
    &&& node.is_dir() && opened_files(node) > 0 ==> node.is_opened()
    &&& forall|i: int|
        0 <= i < node.entries().len() ==> spine_marked(#[trigger] node.entries()[i])
}

/// Without a selection no node of a tree that was built is marked as opened.
pub proof fn lemma_nothing_opened_without_selection(dir: FsEntry, root: Seq<char>)
    requires
        tree_of(dir, root, None) is Ok,
    ensures
        nothing_opened(tree_of(dir, root, None)->Ok_0),
    decreases dir,
{
    let tree = tree_of(dir, root, None)->Ok_0;
    let dirs = sort_by_name(dirs_of(dir.children()));
    let files = sort_by_name(files_of(dir.children()));
    lemma_entries_of_tree(dir, root, None);
    assert forall|i: int| 0 <= i < tree.entries().len() implies nothing_opened(
        #[trigger] tree.entries()[i],
    ) by {
        if i < dirs.len() {
            let j = choose|j: int| 0 <= j < dir.children().len() && dir.children()[j] == dirs[i];
            lemma_nothing_opened_without_selection(dir.children()[j], root);
        } else {
            assert(file_node(files[i - dirs.len()], root, None) is Ok);
        }
    }
}

/// The opened files of two rows of trees behind one another are those of
/// the one and those of the other.
pub proof fn lemma_opened_files_in_append(first: Seq<NodeView>, second: Seq<NodeView>)
    ensures
        opened_files_in(first + second) == opened_files_in(first) + opened_files_in(second),
    decreases second.len(),
{
    if second.len() == 0 {
        assert(first + second =~= first);
    } else {
        lemma_opened_files_in_append(first, second.drop_last());
        assert((first + second).drop_last() =~= first + second.drop_last());
    }
}

/// The wanted files of two rows of entries behind one another are those of
/// the one and those of the other.
pub proof fn lemma_count_files_in_append(
    first: Seq<FsEntry>,
    second: Seq<FsEntry>,
    wanted: spec_fn(FsEntry) -> bool,
)
    ensures
        count_files_in(first + second, wanted) == count_files_in(first, wanted) + count_files_in(
            second,
            wanted,
        ),
    decreases second.len(),
{
    if second.len() == 0 {
        assert(first + second =~= first);
    } else {
        lemma_count_files_in_append(first, second.drop_last(), wanted);
        assert((first + second).drop_last() =~= first + second.drop_last());
    }
}

/// Sorting a row of entries neither adds a wanted file nor loses one.
pub proof fn lemma_count_files_in_sorted(entries: Seq<FsEntry>, wanted: spec_fn(FsEntry) -> bool)
    ensures
        count_files_in(sort_by_name(entries), wanted) == count_files_in(entries, wanted),
    decreases entries.len(),
{
    if entries.len() > 0 {
        let sorted = sort_by_name(entries.drop_last());
        let entry = entries.last();
        let place = place_of(sorted, entry);
        lemma_count_files_in_sorted(entries.drop_last(), wanted);
        lemma_place_of(sorted, entry);
        let front = sorted.take(place);
        let back = sorted.skip(place);
        assert(sorted =~= front + back);
        assert(sorted.insert(place, entry) =~= front.push(entry) + back);
        assert(front.push(entry).drop_last() =~= front);
        lemma_count_files_in_append(front, back, wanted);
        lemma_count_files_in_append(front.push(entry), back, wanted);
    }
}

/// The wanted files of a row of entries are those of its directories and
/// those of its files.
pub proof fn lemma_count_files_in_split(entries: Seq<FsEntry>, wanted: spec_fn(FsEntry) -> bool)
    ensures
        count_files_in(entries, wanted) == count_files_in(dirs_of(entries), wanted)
            + count_files_in(files_of(entries), wanted),
    decreases entries.len(),
{
    reveal(Seq::filter);
    if entries.len() > 0 {
        lemma_count_files_in_split(entries.drop_last(), wanted);
        let entry = entries.last();
        if entry.is_dir() {
            assert(dirs_of(entries).drop_last() =~= dirs_of(entries.drop_last()));
        } else {
            assert(files_of(entries).drop_last() =~= files_of(entries.drop_last()));
        }
    }
}

/// The opened files of a row of file nodes are the files of which the nodes
/// were made and whose URL path is the selection.
proof fn lemma_opened_among_files(
    files: Seq<FsEntry>,
    nodes: Seq<NodeView>,
    root: Seq<char>,
    selection: Option<Seq<char>>,
)
    requires
        files.len() == nodes.len(),
        forall|k: int|
            0 <= k < files.len() ==> file_node(#[trigger] files[k], root, selection) == Ok::<
                NodeView,
                BrowseError,
            >(nodes[k]) && !files[k].is_dir(),
    ensures
        opened_files_in(nodes) == count_files_in(files, is_selection(root, selection)),
    decreases files.len(),
{
    if files.len() > 0 {
        let last = files.len() - 1;
        assert forall|k: int| 0 <= k < last implies file_node(
            #[trigger] files.drop_last()[k],
            root,
            selection,
        ) == Ok::<NodeView, BrowseError>(nodes.drop_last()[k]) && !files.drop_last()[k].is_dir() by {
            assert(files.drop_last()[k] == files[k]);
        }
        lemma_opened_among_files(files.drop_last(), nodes.drop_last(), root, selection);
        assert(file_node(files[last], root, selection) == Ok::<NodeView, BrowseError>(nodes[last]));
        lemma_file_node(files[last], root, selection);
        assert(is_selection(root, selection)(files[last]) == nodes[last].is_opened());
        assert(count_files(files[last], is_selection(root, selection)) == opened_files(nodes[last]));
    }
}

/// The opened files of the first `count` trees below a directory are the
/// files below its first `count` directories whose URL path is the selection.
proof fn lemma_opened_among_dirs(
    dir: FsEntry,
    count: nat,
    root: Seq<char>,
    selection: Option<Seq<char>>,
)
    requires
        tree_of(dir, root, selection) is Ok,
        count <= sort_by_name(dirs_of(dir.children())).len(),
    ensures
        opened_files_in(tree_of(dir, root, selection)->Ok_0.entries().take(count as int))
            == count_files_in(
            sort_by_name(dirs_of(dir.children())).take(count as int),
            is_selection(root, selection),
        ),
    decreases dir, 0nat, count,
{
    let entries = tree_of(dir, root, selection)->Ok_0.entries();
    let dirs = sort_by_name(dirs_of(dir.children()));
    lemma_entries_of_tree(dir, root, selection);
    if count > 0 {
        let child = dirs[count - 1];
        lemma_opened_among_dirs(dir, (count - 1) as nat, root, selection);
        let j = choose|j: int| 0 <= j < dir.children().len() && dir.children()[j] == child;
        lemma_opened_files_are_selected(dir.children()[j], root, selection);
        lemma_entries_of_tree(child, root, selection);
        assert(entries.take(count as int).drop_last() =~= entries.take(count - 1));
        assert(dirs.take(count as int).drop_last() =~= dirs.take(count - 1));
    }
}

/// In a tree that was built, the files marked as opened are as many as the
/// files below the directory whose URL path is the selection.
pub proof fn lemma_opened_files_are_selected(
    dir: FsEntry,
    root: Seq<char>,
    selection: Option<Seq<char>>,
)
    requires
        tree_of(dir, root, selection) is Ok,
    ensures
        opened_files(tree_of(dir, root, selection)->Ok_0) == count_files(
            dir,
            is_selection(root, selection),
        ),
    decreases dir, 1nat, 0nat,
{
    let wanted = is_selection(root, selection);
    let entries = tree_of(dir, root, selection)->Ok_0.entries();
    let children = dir.children();
    let dirs = sort_by_name(dirs_of(children));
    let files = sort_by_name(files_of(children));
    lemma_entries_of_tree(dir, root, selection);
    let split = dirs.len() as int;
    lemma_opened_among_dirs(dir, dirs.len(), root, selection);
    assert(dirs.take(split) =~= dirs);
    assert forall|k: int| 0 <= k < files.len() implies file_node(
        #[trigger] files[k],
        root,
        selection,
    ) == Ok::<NodeView, BrowseError>(entries.skip(split)[k]) && !files[k].is_dir() by {}
    lemma_opened_among_files(files, entries.skip(split), root, selection);
    assert(entries =~= entries.take(split) + entries.skip(split));
    lemma_opened_files_in_append(entries.take(split), entries.skip(split));
    lemma_count_files_in_sorted(dirs_of(children), wanted);
    lemma_count_files_in_sorted(files_of(children), wanted);
    lemma_count_files_in_split(children, wanted);
}

/// Of a wider wish there are no fewer files than of a narrower one.
pub proof fn lemma_count_files_grows(
    entry: FsEntry,
    narrow: spec_fn(FsEntry) -> bool,
    wide: spec_fn(FsEntry) -> bool,
)
    requires
        forall|file: FsEntry| #[trigger] narrow(file) ==> wide(file),
    ensures
        count_files(entry, narrow) <= count_files(entry, wide),
    decreases entry,
{
    match entry.content {
        FsContent::Dir(children) => {
            lemma_count_files_in_grows(children@, narrow, wide);
        },
        _ => {},
    }
}

/// Of a wider wish there are no fewer files than of a narrower one.
pub proof fn lemma_count_files_in_grows(
    entries: Seq<FsEntry>,
    narrow: spec_fn(FsEntry) -> bool,
    wide: spec_fn(FsEntry) -> bool,
)
    requires
        forall|file: FsEntry| #[trigger] narrow(file) ==> wide(file),
    ensures
        count_files_in(entries, narrow) <= count_files_in(entries, wide),
    decreases entries,
{
    if entries.len() > 0 {
        lemma_count_files_in_grows(entries.drop_last(), narrow, wide);
        lemma_count_files_grows(entries.last(), narrow, wide);
    }
}

/// A file whose URL path is the selection stands at the path that the
/// selection names.
pub proof fn lemma_selection_names_path(
    file: FsEntry,
    root: Seq<char>,
    selection: Option<Seq<char>>,
)
    requires
        is_selection(root, selection)(file),
    ensures
        selection is Some,
        file.path@ == selected_path(root, selection->Some_0),
{
    broadcast use decode_utf8_encode_utf8;

    lemma_file_node(file, root, selection);
}

/// Where at most one file stands at the path that the selection names, at
/// most one file of a tree that was built is marked as opened.
pub proof fn lemma_at_most_one_opened(dir: FsEntry, root: Seq<char>, selection: Option<Seq<char>>)
    requires
        tree_of(dir, root, selection) is Ok,
        selection is Some ==> count_files(
            dir,
            has_path(selected_path(root, selection->Some_0)),
        ) <= 1,
    ensures
        opened_files(tree_of(dir, root, selection)->Ok_0) <= 1,
{
    lemma_opened_files_are_selected(dir, root, selection);
    let nowhere = |file: FsEntry| false;
    let wanted = match selection {
        Some(url) => has_path(selected_path(root, url)),
        None => nowhere,
    };
    assert forall|file: FsEntry| #[trigger]
        is_selection(root, selection)(file) implies wanted(file) by {
        lemma_selection_names_path(file, root, selection);
    }
    lemma_count_files_grows(dir, is_selection(root, selection), wanted);
    if selection is None {
        lemma_count_files_of_none(dir);
    }
}

/// Of what never holds there is no file.
proof fn lemma_count_files_of_none(entry: FsEntry)
    ensures
        count_files(entry, |file: FsEntry| false) == 0,
    decreases entry,
{
    match entry.content {
        FsContent::Dir(children) => {
            lemma_count_files_in_of_none(children@);
        },
        _ => {},
    }
}

/// Of what never holds there is no file.
proof fn lemma_count_files_in_of_none(entries: Seq<FsEntry>)
    ensures
        count_files_in(entries, |file: FsEntry| false) == 0,
    decreases entries,
{
    if entries.len() > 0 {
        lemma_count_files_in_of_none(entries.drop_last());
        lemma_count_files_of_none(entries.last());
    }
}

/// Where no two files stand at one path, at most one file of a tree that was
/// built is marked as opened.
pub proof fn lemma_distinct_paths_open_one(
    dir: FsEntry,
    root: Seq<char>,
    selection: Option<Seq<char>>,
)
    requires
        tree_of(dir, root, selection) is Ok,
        paths_distinct(dir),
    ensures
        opened_files(tree_of(dir, root, selection)->Ok_0) <= 1,
{
    if selection is Some {
        assert(count_files(dir, has_path(selected_path(root, selection->Some_0))) <= 1);
    }
    lemma_at_most_one_opened(dir, root, selection);
}

/// Where a file at or below an entry has the selection as its URL path, and
/// paths nest, the entry's own path begins the path that the selection names.
pub proof fn lemma_selection_lies_below(
    entry: FsEntry,
    root: Seq<char>,
    selection: Option<Seq<char>>,
)
    requires
        entry.paths_nest(),
        count_files(entry, is_selection(root, selection)) > 0,
    ensures
        selection is Some,
        entry.path@.is_prefix_of(selected_path(root, selection->Some_0)),
    decreases entry,
{
    match entry.content {
        FsContent::Dir(children) => {
            lemma_selection_lies_among(children@, entry.path@, root, selection);
        },
        _ => {
            lemma_selection_names_path(entry, root, selection);
        },
    }
}

/// The same of a row of entries whose paths all begin with one path.
pub proof fn lemma_selection_lies_among(
    entries: Seq<FsEntry>,
    above: Seq<u8>,
    root: Seq<char>,
    selection: Option<Seq<char>>,
)
    requires
        forall|i: int|
            0 <= i < entries.len() ==> above.is_prefix_of((#[trigger] entries[i]).path@)
                && entries[i].paths_nest(),
        count_files_in(entries, is_selection(root, selection)) > 0,
    ensures
        selection is Some,
        above.is_prefix_of(selected_path(root, selection->Some_0)),
    decreases entries,
{
    let wanted = is_selection(root, selection);
    if entries.len() > 0 {
        let last = entries[entries.len() - 1];
        if count_files(last, wanted) > 0 {
            lemma_selection_lies_below(last, root, selection);
            lemma_prefix_of_prefix(above, last.path@, selected_path(root, selection->Some_0));
        } else {
            assert forall|i: int| 0 <= i < entries.drop_last().len() implies above.is_prefix_of(
                (#[trigger] entries.drop_last()[i]).path@,
            ) && entries.drop_last()[i].paths_nest() by {
                assert(entries.drop_last()[i] == entries[i]);
            }
            lemma_selection_lies_among(entries.drop_last(), above, root, selection);
        }
    }
}

/// The beginning of a beginning is a beginning.
proof fn lemma_prefix_of_prefix(a: Seq<u8>, b: Seq<u8>, c: Seq<u8>)
    requires
        a.is_prefix_of(b),
        b.is_prefix_of(c),
    ensures
        a.is_prefix_of(c),
{
    assert(a =~= c.subrange(0, a.len() as int)) by {
        assert forall|i: int| 0 <= i < a.len() implies a[i] == c[i] by {
            assert(a[i] == b.subrange(0, a.len() as int)[i]);
            assert(b[i] == c.subrange(0, b.len() as int)[i]);
        }
    }
}

/// A directory is marked as opened exactly when a selection is there and the
/// directory's path begins the path that the selection names.
pub proof fn lemma_opened_dir_begins_selection(
    dir: FsEntry,
    root: Seq<char>,
    selection: Option<Seq<char>>,
)
    requires
        dir_node(dir, root, selection) is Ok,
    ensures
        dir_node(dir, root, selection)->Ok_0.is_opened() <==> selection is Some
            && dir.path@.is_prefix_of(selected_path(root, selection->Some_0)),
{
    broadcast use decode_utf8_encode_utf8;

    lemma_dir_node(dir, root, selection);
    if selection is Some {
        let tail = selection->Some_0.skip(video_url_prefix().len() as int);
        let text = decode_utf8(dir.path@);
        let relative = text.skip(root.len() as int);
        lemma_prefix_of_encoding(text, root + tail);
        assert(text =~= root + relative);
        if relative.is_prefix_of(tail) {
            assert(text =~= (root + tail).subrange(0, text.len() as int)) by {
                assert forall|i: int| 0 <= i < text.len() implies text[i] == (root + tail)[i] by {
                    if i >= root.len() {
                        assert(relative[i - root.len()] == tail.subrange(
                            0,
                            relative.len() as int,
                        )[i - root.len()]);
                    }
                }
            }
        }
        if text.is_prefix_of(root + tail) {
            assert(relative =~= tail.subrange(0, relative.len() as int)) by {
                assert forall|i: int| 0 <= i < relative.len() implies relative[i] == tail[i] by {
                    assert(text[root.len() + i] == (root + tail).subrange(
                        0,
                        text.len() as int,
                    )[root.len() + i]);
                }
            }
        }
    }
}

/// Where paths nest, every directory of a tree that was built with an opened
/// file in it or below it is marked as opened: the marks lead from the root
/// down to the opened file.
pub proof fn lemma_spine_marked(dir: FsEntry, root: Seq<char>, selection: Option<Seq<char>>)
    requires
        tree_of(dir, root, selection) is Ok,
        dir.paths_nest(),
    ensures
        spine_marked(tree_of(dir, root, selection)->Ok_0),
    decreases dir,
{
    let tree = tree_of(dir, root, selection)->Ok_0;
    let dirs = sort_by_name(dirs_of(dir.children()));
    let files = sort_by_name(files_of(dir.children()));
    lemma_entries_of_tree(dir, root, selection);
    if opened_files(tree) > 0 {
        lemma_opened_files_are_selected(dir, root, selection);
        lemma_selection_lies_below(dir, root, selection);
        lemma_opened_dir_begins_selection(dir, root, selection);
    }
    assert forall|i: int| 0 <= i < tree.entries().len() implies spine_marked(
        #[trigger] tree.entries()[i],
    ) by {
        if i < dirs.len() {
            let j = choose|j: int| 0 <= j < dir.children().len() && dir.children()[j] == dirs[i];
            lemma_spine_marked(dir.children()[j], root, selection);
        } else {
            lemma_file_node(files[i - dirs.len()], root, selection);
        }
    }
}

/// Of the files of a row whose nodes can all be made, no fewer meet a wish
/// than meet another that each such file meets less readily.
proof fn lemma_count_among_files(
    files: Seq<FsEntry>,
    root: Seq<char>,
    selection: Option<Seq<char>>,
    narrow: spec_fn(FsEntry) -> bool,
    wide: spec_fn(FsEntry) -> bool,
)
    requires
        forall|k: int|
            0 <= k < files.len() ==> file_node(#[trigger] files[k], root, selection) is Ok
                && !files[k].is_dir(),
        forall|file: FsEntry|
            file_node(file, root, selection) is Ok && #[trigger] narrow(file) ==> wide(file),
    ensures
        count_files_in(files, narrow) <= count_files_in(files, wide),
    decreases files.len(),
{
    if files.len() > 0 {
        let last = files.len() - 1;
        assert forall|k: int| 0 <= k < last implies file_node(
            #[trigger] files.drop_last()[k],
            root,
            selection,
        ) is Ok && !files.drop_last()[k].is_dir() by {
            assert(files.drop_last()[k] == files[k]);
        }
        lemma_count_among_files(files.drop_last(), root, selection, narrow, wide);
        assert(file_node(files[last], root, selection) is Ok && !files[last].is_dir());
        assert(narrow(files[last]) ==> wide(files[last]));
        assert(count_files(files.last(), narrow) <= count_files(files.last(), wide));
    }
}

/// The same of the first `count` directories below a directory whose tree
/// was built.
proof fn lemma_count_among_dirs(
    dir: FsEntry,
    count: nat,
    root: Seq<char>,
    selection: Option<Seq<char>>,
    narrow: spec_fn(FsEntry) -> bool,
    wide: spec_fn(FsEntry) -> bool,
)
    requires
        tree_of(dir, root, selection) is Ok,
        count <= sort_by_name(dirs_of(dir.children())).len(),
        forall|file: FsEntry|
            file_node(file, root, selection) is Ok && #[trigger] narrow(file) ==> wide(file),
    ensures
        count_files_in(sort_by_name(dirs_of(dir.children())).take(count as int), narrow)
            <= count_files_in(sort_by_name(dirs_of(dir.children())).take(count as int), wide),
    decreases dir, 0nat, count,
{
    let dirs = sort_by_name(dirs_of(dir.children()));
    lemma_entries_of_tree(dir, root, selection);
    if count > 0 {
        let child = dirs[count - 1];
        lemma_count_among_dirs(dir, (count - 1) as nat, root, selection, narrow, wide);
        let j = choose|j: int| 0 <= j < dir.children().len() && dir.children()[j] == child;
        lemma_count_in_built_tree(dir.children()[j], root, selection, narrow, wide);
        assert(dirs.take(count as int).drop_last() =~= dirs.take(count - 1));
    }
}

/// Below a directory whose tree was built, no fewer files meet a wish than
/// meet another that each file whose node can be made meets less readily.
pub proof fn lemma_count_in_built_tree(
    dir: FsEntry,
    root: Seq<char>,
    selection: Option<Seq<char>>,
    narrow: spec_fn(FsEntry) -> bool,
    wide: spec_fn(FsEntry) -> bool,
)
    requires
        tree_of(dir, root, selection) is Ok,
        forall|file: FsEntry|
            file_node(file, root, selection) is Ok && #[trigger] narrow(file) ==> wide(file),
    ensures
        count_files(dir, narrow) <= count_files(dir, wide),
    decreases dir, 1nat, 0nat,
{
    let children = dir.children();
    let dirs = sort_by_name(dirs_of(children));
    let files = sort_by_name(files_of(children));
    lemma_entries_of_tree(dir, root, selection);
    lemma_count_among_dirs(dir, dirs.len(), root, selection, narrow, wide);
    assert(dirs.take(dirs.len() as int) =~= dirs);
    lemma_count_among_files(files, root, selection, narrow, wide);
    lemma_count_files_in_sorted(dirs_of(children), narrow);
    lemma_count_files_in_sorted(files_of(children), narrow);
    lemma_count_files_in_split(children, narrow);
    lemma_count_files_in_sorted(dirs_of(children), wide);
    lemma_count_files_in_sorted(files_of(children), wide);
    lemma_count_files_in_split(children, wide);
}

/// A file at the path that the selection names, whose node can be made, has
/// the selection as its URL path.
pub proof fn lemma_path_names_selection(file: FsEntry, root: Seq<char>, url: Seq<char>)
    requires
        file_node(file, root, Some(url)) is Ok,
        video_url_prefix().is_prefix_of(url),
        file.path@ == selected_path(root, url),
    ensures
        is_selection(root, Some(url))(file),
{
    broadcast use encode_utf8_decode_utf8;

    let tail = url.skip(video_url_prefix().len() as int);
    assert((root + tail).skip(root.len() as int) =~= tail);
    assert(video_url_prefix() + tail =~= url);
}

/// Where a path begins the path that the selection names only where it leads
/// there, every directory of a tree that was built that is marked as opened
/// has an opened file in it or below it.
pub proof fn lemma_only_spine_marked(dir: FsEntry, root: Seq<char>, selection: Option<Seq<char>>)
    requires
        tree_of(dir, root, selection) is Ok,
        selection is Some ==> begins_only_above(dir, selected_path(root, selection->Some_0)),
    ensures
        only_spine_marked(tree_of(dir, root, selection)->Ok_0),
    decreases dir,
{
    let tree = tree_of(dir, root, selection)->Ok_0;
    let dirs = sort_by_name(dirs_of(dir.children()));
    let files = sort_by_name(files_of(dir.children()));
    lemma_entries_of_tree(dir, root, selection);
    if tree.is_opened() {
        lemma_opened_dir_begins_selection(dir, root, selection);
        lemma_dir_node(dir, root, selection);
        let url = selection->Some_0;
        let path = selected_path(root, url);
        assert forall|file: FsEntry|
            file_node(file, root, selection) is Ok && #[trigger] has_path(path)(
                file,
            ) implies is_selection(root, selection)(file) by {
            lemma_path_names_selection(file, root, url);
        }
        lemma_count_in_built_tree(
            dir,
            root,
            selection,
            has_path(path),
            is_selection(root, selection),
        );
        lemma_opened_files_are_selected(dir, root, selection);
    }
    assert forall|i: int| 0 <= i < tree.entries().len() implies only_spine_marked(
        #[trigger] tree.entries()[i],
    ) by {
        if i < dirs.len() {
            let j = choose|j: int| 0 <= j < dir.children().len() && dir.children()[j] == dirs[i];
            lemma_only_spine_marked(dir.children()[j], root, selection);
        } else {
            lemma_file_node(files[i - dirs.len()], root, selection);
        }
    }
}

} // verus!
