//! What holds of the shape of every tree that `browse_dir` builds: names,
//! order, paths, and that nothing of the videos root is in it.

use crate::entry::{FsContent, FsEntry};
use crate::error::BrowseError;
use crate::file_browser::{
    dir_node, dirs_of, file_node, files_of, gather, leaf_text, lemma_tree_of_dir, relative_to,
    tree_of, video_url, video_url_prefix, walk,
};
use crate::order::{
    bytes_le, lemma_place_of, lemma_sort_by_name_any_order, lemma_sort_by_name_ascends,
    lemma_sort_by_name_contains, names_distinct, place_of, sort_by_name,
};
use crate::tree::NodeView;
use vstd::multiset::*;
use vstd::prelude::*;
use vstd::seq_lib::*;
use vstd::utf8::*;

verus! {

/// Every node in the tree has a name of at least one letter.
pub open spec fn names_present(node: NodeView) -> bool
    decreases node,
{
    &&& node.name().len() > 0
    &&& forall|i: int|
        0 <= i < node.entries().len() ==> names_present(#[trigger] node.entries()[i])
}

/// In a row of entries the directories stand before the files, and within
/// each of the two the names never step back, read as UTF-8 byte by byte.
pub open spec fn entries_ordered(entries: Seq<NodeView>) -> bool {
    forall|i: int, j: int|
        0 <= i < j < entries.len() ==> {
            &&& (#[trigger] entries[i]).is_dir() || !(#[trigger] entries[j]).is_dir()
            &&& entries[i].is_dir() == entries[j].is_dir() ==> bytes_le(
                encode_utf8(entries[i].name()),
                encode_utf8(entries[j].name()),
            )
        }
}

/// Every directory in the tree has its entries in order.
pub open spec fn ordered(node: NodeView) -> bool
    decreases node,
{
    &&& entries_ordered(node.entries())
    &&& forall|i: int| 0 <= i < node.entries().len() ==> ordered(#[trigger] node.entries()[i])
}

/// The path of every file in the tree begins with the URL prefix of the
/// videos.
pub open spec fn urls_prefixed(node: NodeView) -> bool
    decreases node,
{
    &&& node matches NodeView::File { path, .. } ==> video_url_prefix().is_prefix_of(path)
    &&& forall|i: int|
        0 <= i < node.entries().len() ==> urls_prefixed(#[trigger] node.entries()[i])
}

/// No path of a file in the tree begins with the given text.
pub open spec fn no_path_begins_with(node: NodeView, text: Seq<char>) -> bool
    decreases node,
{
    &&& node matches NodeView::File { path, .. } ==> !text.is_prefix_of(path)
    &&& forall|i: int|
        0 <= i < node.entries().len() ==> no_path_begins_with(#[trigger] node.entries()[i], text)
}

/// Two entries are alike but for the videos root: they have one name, their
/// paths have one remainder behind their roots, and what stands at them is
/// alike in the same way, child for child.
pub open spec fn alike_below_roots(
    a: FsEntry,
    root_a: Seq<char>,
    b: FsEntry,
    root_b: Seq<char>,
) -> bool
    decreases a,
{
    &&& a.name@ == b.name@
    &&& relative_to(a.path@, root_a) == relative_to(b.path@, root_b)
    &&& match a.content {
        FsContent::File => b.content is File,
        FsContent::Unreadable => b.content is Unreadable,
        FsContent::Dir(children) => b.content is Dir && rows_alike(
            children@,
            root_a,
            b.children(),
            root_b,
        ),
    }
}

/// Two rows of entries are alike place for place.
pub open spec fn rows_alike(
    row_a: Seq<FsEntry>,
    root_a: Seq<char>,
    row_b: Seq<FsEntry>,
    root_b: Seq<char>,
) -> bool
    decreases row_a,
{
    &&& row_a.len() == row_b.len()
    &&& forall|i: int|
        0 <= i < row_a.len() ==> alike_below_roots(#[trigger] row_a[i], root_a, row_b[i], root_b)
}

/// Where a row gathers well, each of its results went well and gave the node
/// at its place.
pub proof fn lemma_gather_ok(results: Seq<Result<NodeView, BrowseError>>)
    requires
        gather(results) is Ok,
    ensures
        gather(results)->Ok_0.len() == results.len(),
        forall|k: int|
            0 <= k < results.len() ==> #[trigger] results[k] == Ok::<NodeView, BrowseError>(
                gather(results)->Ok_0[k],
            ),
    decreases results.len(),
{
    if results.len() > 0 {
        lemma_gather_ok(results.drop_last());
        assert forall|k: int| 0 <= k < results.len() implies #[trigger] results[k] == Ok::<
            NodeView,
            BrowseError,
        >(gather(results)->Ok_0[k]) by {
            if k < results.len() - 1 {
                assert(results[k] == results.drop_last()[k]);
            }
        }
    }
}

/// A tree that was built is a directory with the name and the mark of its
/// own node; its entries are the trees of its directories in the order of
/// their names, then the nodes of its files in the order of theirs.
pub proof fn lemma_entries_of_tree(dir: FsEntry, root: Seq<char>, selection: Option<Seq<char>>)
    requires
        tree_of(dir, root, selection) is Ok,
    ensures
        ({
            let tree = tree_of(dir, root, selection)->Ok_0;
            let dirs = sort_by_name(dirs_of(dir.children()));
            let files = sort_by_name(files_of(dir.children()));
            &&& dir.content is Dir
            &&& dir_node(dir, root, selection) is Ok
            &&& tree is Dir
            &&& tree.name() == dir_node(dir, root, selection)->Ok_0.name()
            &&& tree.is_opened() == dir_node(dir, root, selection)->Ok_0.is_opened()
            &&& gather(walk(dir.children(), root, selection)) == Ok::<Seq<NodeView>, BrowseError>(
                tree.entries(),
            )
            &&& tree.entries().len() == dirs.len() + files.len()
            &&& forall|k: int|
                0 <= k < dirs.len() ==> {
                    &&& tree_of(#[trigger] dirs[k], root, selection) == Ok::<
                        NodeView,
                        BrowseError,
                    >(tree.entries()[k])
                    &&& dir.children().contains(dirs[k])
                    &&& dirs[k].is_dir()
                }
            &&& forall|k: int|
                0 <= k < files.len() ==> {
                    &&& file_node(#[trigger] files[k], root, selection) == Ok::<
                        NodeView,
                        BrowseError,
                    >(tree.entries()[dirs.len() + k])
                    &&& dir.children().contains(files[k])
                    &&& !files[k].is_dir()
                }
        }),
{
    lemma_tree_of_dir(dir, root, selection);
    let children = dir.children();
    let dirs = sort_by_name(dirs_of(children));
    let files = sort_by_name(files_of(children));
    let results = walk(children, root, selection);
    lemma_gather_ok(results);
    assert forall|k: int| 0 <= k < dirs.len() implies children.contains(#[trigger] dirs[k])
        && dirs[k].is_dir() by {
        lemma_sorted_member(dirs_of(children), k);
        children.lemma_filter_contains_rev(|child: FsEntry| child.is_dir(), dirs[k]);
        lemma_filter_holds(children, |child: FsEntry| child.is_dir(), dirs[k]);
    }
    assert forall|k: int| 0 <= k < files.len() implies children.contains(#[trigger] files[k])
        && !files[k].is_dir() by {
        lemma_sorted_member(files_of(children), k);
        children.lemma_filter_contains_rev(|child: FsEntry| !child.is_dir(), files[k]);
        lemma_filter_holds(children, |child: FsEntry| !child.is_dir(), files[k]);
    }
    assert forall|k: int| 0 <= k < dirs.len() implies tree_of(
        #[trigger] dirs[k],
        root,
        selection,
    ) == results[k] by {}
    assert forall|k: int| 0 <= k < files.len() implies file_node(
        #[trigger] files[k],
        root,
        selection,
    ) == results[dirs.len() + k] by {}
}

/// What stands in a sorted row stands in the row it was made from.
pub(crate) proof fn lemma_sorted_member(entries: Seq<FsEntry>, k: int)
    requires
        0 <= k < sort_by_name(entries).len(),
    ensures
        entries.contains(sort_by_name(entries)[k]),
{
    assert(sort_by_name(entries).contains(sort_by_name(entries)[k]));
    lemma_sort_by_name_contains(entries, sort_by_name(entries)[k]);
}

/// What passed a filter is what the filter asks for.
proof fn lemma_filter_holds(
    entries: Seq<FsEntry>,
    wanted: spec_fn(FsEntry) -> bool,
    entry: FsEntry,
)
    requires
        entries.filter(wanted).contains(entry),
    ensures
        wanted(entry),
{
    let k = choose|k: int| 0 <= k < entries.filter(wanted).len() && entries.filter(wanted)[k] == entry;
    entries.lemma_filter_pred(wanted, k);
}

/// The text of a name has at least one letter, and is again the name when
/// written in UTF-8.
pub proof fn lemma_text_of_name(name: Seq<u8>)
    requires
        leaf_text(name) is Ok,
    ensures
        leaf_text(name)->Ok_0.len() > 0,
        encode_utf8(leaf_text(name)->Ok_0) == name,
{
    broadcast use decode_utf8_encode_utf8;

}

/// The node of a file carries the file's name as text, and as path the URL
/// prefix followed by what stands behind the videos root in the file's own
/// path: the root itself is not in it. The mark says whether that path is
/// the selection.
pub proof fn lemma_file_node(file: FsEntry, root: Seq<char>, selection: Option<Seq<char>>)
    requires
        file_node(file, root, selection) is Ok,
    ensures
        ({
            let node = file_node(file, root, selection)->Ok_0;
            &&& node matches NodeView::File { name, is_opened, path }
            &&& leaf_text(file.name@) == Ok::<Seq<char>, BrowseError>(name)
            &&& valid_utf8(file.path@)
            &&& video_url_prefix().is_prefix_of(path)
            &&& root + path.skip(video_url_prefix().len() as int) == decode_utf8(file.path@)
            &&& is_opened == (selection == Some(path))
        }),
{
    let text = decode_utf8(file.path@);
    let relative = text.skip(root.len() as int);
    assert(root + relative =~= text);
    assert(video_url(relative).skip(video_url_prefix().len() as int) =~= relative);
    assert(video_url_prefix() =~= video_url(relative).subrange(
        0,
        video_url_prefix().len() as int,
    ));
}

/// The node of a directory carries the directory's name as text. It is marked
/// as opened exactly when a selection is there and what follows the URL
/// prefix in it begins with what stands behind the videos root in the
/// directory's own path.
pub proof fn lemma_dir_node(dir: FsEntry, root: Seq<char>, selection: Option<Seq<char>>)
    requires
        dir_node(dir, root, selection) is Ok,
    ensures
        ({
            let node = dir_node(dir, root, selection)->Ok_0;
            &&& node matches NodeView::Dir { name, is_opened, entries }
            &&& leaf_text(dir.name@) == Ok::<Seq<char>, BrowseError>(name)
            &&& entries.len() == 0
            &&& valid_utf8(dir.path@)
            &&& root.is_prefix_of(decode_utf8(dir.path@))
            &&& is_opened == (selection is Some && decode_utf8(dir.path@).skip(
                root.len() as int,
            ).is_prefix_of(selection->Some_0.skip(video_url_prefix().len() as int)))
            &&& selection is Some ==> video_url_prefix().is_prefix_of(selection->Some_0)
        }),
{
}

/// Every node of a tree that was built has a name of at least one letter.
pub proof fn lemma_names_present(dir: FsEntry, root: Seq<char>, selection: Option<Seq<char>>)
    requires
        tree_of(dir, root, selection) is Ok,
    ensures
        names_present(tree_of(dir, root, selection)->Ok_0),
    decreases dir,
{
    let tree = tree_of(dir, root, selection)->Ok_0;
    let dirs = sort_by_name(dirs_of(dir.children()));
    let files = sort_by_name(files_of(dir.children()));
    lemma_entries_of_tree(dir, root, selection);
    lemma_text_of_name(dir.name@);
    assert forall|i: int| 0 <= i < tree.entries().len() implies names_present(
        #[trigger] tree.entries()[i],
    ) by {
        if i < dirs.len() {
            let j = choose|j: int| 0 <= j < dir.children().len() && dir.children()[j] == dirs[i];
            lemma_names_present(dir.children()[j], root, selection);
        } else {
            let file = files[i - dirs.len()];
            lemma_text_of_name(file.name@);
        }
    }
}

/// In a tree that was built, the directories of every directory stand before
/// its files, and within each of the two the names never step back.
pub proof fn lemma_tree_is_ordered(dir: FsEntry, root: Seq<char>, selection: Option<Seq<char>>)
    requires
        tree_of(dir, root, selection) is Ok,
    ensures
        ordered(tree_of(dir, root, selection)->Ok_0),
    decreases dir,
{
    let tree = tree_of(dir, root, selection)->Ok_0;
    let entries = tree.entries();
    let dirs = sort_by_name(dirs_of(dir.children()));
    let files = sort_by_name(files_of(dir.children()));
    lemma_entries_of_tree(dir, root, selection);
    lemma_sort_by_name_ascends(dirs_of(dir.children()));
    lemma_sort_by_name_ascends(files_of(dir.children()));
    assert forall|i: int| 0 <= i < entries.len() implies {
        &&& ordered(#[trigger] entries[i])
        &&& entries[i].is_dir() == (i < dirs.len())
        &&& i < dirs.len() ==> encode_utf8(entries[i].name()) == dirs[i].name@
        &&& i >= dirs.len() ==> encode_utf8(entries[i].name()) == files[i - dirs.len()].name@
    } by {
        if i < dirs.len() {
            let j = choose|j: int| 0 <= j < dir.children().len() && dir.children()[j] == dirs[i];
            lemma_tree_is_ordered(dir.children()[j], root, selection);
            lemma_entries_of_tree(dirs[i], root, selection);
            lemma_dir_node(dirs[i], root, selection);
            lemma_text_of_name(dirs[i].name@);
        } else {
            let file = files[i - dirs.len()];
            lemma_file_node(file, root, selection);
            lemma_text_of_name(file.name@);
        }
    }
    assert forall|i: int, j: int| 0 <= i < j < entries.len() implies {
        &&& (#[trigger] entries[i]).is_dir() || !(#[trigger] entries[j]).is_dir()
        &&& entries[i].is_dir() == entries[j].is_dir() ==> bytes_le(
            encode_utf8(entries[i].name()),
            encode_utf8(entries[j].name()),
        )
    } by {
        if j < dirs.len() {
            assert(bytes_le(dirs[i].name@, dirs[j].name@));
        } else if i >= dirs.len() {
            assert(bytes_le(files[i - dirs.len()].name@, files[j - dirs.len()].name@));
        }
    }
}

/// In a tree that was built, the path of every file begins with the URL
/// prefix of the videos.
pub proof fn lemma_urls_prefixed(dir: FsEntry, root: Seq<char>, selection: Option<Seq<char>>)
    requires
        tree_of(dir, root, selection) is Ok,
    ensures
        urls_prefixed(tree_of(dir, root, selection)->Ok_0),
    decreases dir,
{
    let tree = tree_of(dir, root, selection)->Ok_0;
    let dirs = sort_by_name(dirs_of(dir.children()));
    let files = sort_by_name(files_of(dir.children()));
    lemma_entries_of_tree(dir, root, selection);
    assert forall|i: int| 0 <= i < tree.entries().len() implies urls_prefixed(
        #[trigger] tree.entries()[i],
    ) by {
        if i < dirs.len() {
            let j = choose|j: int| 0 <= j < dir.children().len() && dir.children()[j] == dirs[i];
            lemma_urls_prefixed(dir.children()[j], root, selection);
        } else {
            lemma_file_node(files[i - dirs.len()], root, selection);
        }
    }
}

/// Two rows stand in a relation place for place.
pub open spec fn rows_related(
    row_a: Seq<FsEntry>,
    row_b: Seq<FsEntry>,
    related: spec_fn(FsEntry, FsEntry) -> bool,
) -> bool {
    &&& row_a.len() == row_b.len()
    &&& forall|i: int| 0 <= i < row_a.len() ==> related(#[trigger] row_a[i], row_b[i])
}

/// What stands in the relation has one name, and is a directory on both
/// sides or on neither.
pub open spec fn keeps_name_and_kind(related: spec_fn(FsEntry, FsEntry) -> bool) -> bool {
    forall|x: FsEntry, y: FsEntry| #[trigger]
        related(x, y) ==> x.name@ == y.name@ && x.is_dir() == y.is_dir()
}

/// An entry finds the same place in two sorted rows that are related.
proof fn lemma_place_in_related_rows(
    row_a: Seq<FsEntry>,
    a: FsEntry,
    row_b: Seq<FsEntry>,
    b: FsEntry,
    related: spec_fn(FsEntry, FsEntry) -> bool,
)
    requires
        rows_related(row_a, row_b, related),
        keeps_name_and_kind(related),
        a.name@ == b.name@,
    ensures
        place_of(row_a, a) == place_of(row_b, b),
    decreases row_a.len(),
{
    if row_a.len() > 0 {
        let last = row_a.len() - 1;
        assert(related(row_a[last], row_b[last]));
        if !bytes_le(row_a[last].name@, a.name@) {
            assert forall|i: int| 0 <= i < last implies related(
                #[trigger] row_a.drop_last()[i],
                row_b.drop_last()[i],
            ) by {
                assert(related(row_a[i], row_b[i]));
            }
            lemma_place_in_related_rows(row_a.drop_last(), a, row_b.drop_last(), b, related);
        }
    }
}

/// Rows that are related are still related when sorted.
proof fn lemma_sorted_rows_related(
    row_a: Seq<FsEntry>,
    row_b: Seq<FsEntry>,
    related: spec_fn(FsEntry, FsEntry) -> bool,
)
    requires
        rows_related(row_a, row_b, related),
        keeps_name_and_kind(related),
    ensures
        rows_related(sort_by_name(row_a), sort_by_name(row_b), related),
    decreases row_a.len(),
{
    if row_a.len() > 0 {
        let last = row_a.len() - 1;
        let sorted_a = sort_by_name(row_a.drop_last());
        let sorted_b = sort_by_name(row_b.drop_last());
        assert(related(row_a[last], row_b[last]));
        assert forall|i: int| 0 <= i < last implies related(
            #[trigger] row_a.drop_last()[i],
            row_b.drop_last()[i],
        ) by {
            assert(related(row_a[i], row_b[i]));
        }
        lemma_sorted_rows_related(row_a.drop_last(), row_b.drop_last(), related);
        lemma_place_in_related_rows(sorted_a, row_a[last], sorted_b, row_b[last], related);
        lemma_place_of(sorted_a, row_a[last]);
        let place = place_of(sorted_a, row_a[last]);
        let result_a = sorted_a.insert(place, row_a[last]);
        let result_b = sorted_b.insert(place, row_b[last]);
        assert forall|i: int| 0 <= i < result_a.len() implies related(
            #[trigger] result_a[i],
            result_b[i],
        ) by {
            if i < place {
                assert(related(sorted_a[i], sorted_b[i]));
            } else if i > place {
                assert(related(sorted_a[i - 1], sorted_b[i - 1]));
            }
        }
    }
}

/// Of rows that are related, the directories are related and the files are.
proof fn lemma_split_rows_related(
    row_a: Seq<FsEntry>,
    row_b: Seq<FsEntry>,
    related: spec_fn(FsEntry, FsEntry) -> bool,
)
    requires
        rows_related(row_a, row_b, related),
        keeps_name_and_kind(related),
    ensures
        rows_related(dirs_of(row_a), dirs_of(row_b), related),
        rows_related(files_of(row_a), files_of(row_b), related),
    decreases row_a.len(),
{
    reveal(Seq::filter);
    if row_a.len() > 0 {
        let last = row_a.len() - 1;
        assert(related(row_a[last], row_b[last]));
        assert forall|i: int| 0 <= i < last implies related(
            #[trigger] row_a.drop_last()[i],
            row_b.drop_last()[i],
        ) by {
            assert(related(row_a[i], row_b[i]));
        }
        lemma_split_rows_related(row_a.drop_last(), row_b.drop_last(), related);
        let dirs_a = dirs_of(row_a.drop_last());
        let dirs_b = dirs_of(row_b.drop_last());
        let files_a = files_of(row_a.drop_last());
        let files_b = files_of(row_b.drop_last());
        if row_a[last].is_dir() {
            assert forall|i: int| 0 <= i < dirs_of(row_a).len() implies related(
                #[trigger] dirs_of(row_a)[i],
                dirs_of(row_b)[i],
            ) by {
                if i < dirs_a.len() {
                    assert(related(dirs_a[i], dirs_b[i]));
                }
            }
        } else {
            assert forall|i: int| 0 <= i < files_of(row_a).len() implies related(
                #[trigger] files_of(row_a)[i],
                files_of(row_b)[i],
            ) by {
                if i < files_a.len() {
                    assert(related(files_a[i], files_b[i]));
                }
            }
        }
    }
}

/// The tree holds nothing of the videos root: two directories that are alike
/// but for their roots give one tree.
pub proof fn lemma_tree_holds_no_root(
    a: FsEntry,
    root_a: Seq<char>,
    b: FsEntry,
    root_b: Seq<char>,
    selection: Option<Seq<char>>,
)
    requires
        alike_below_roots(a, root_a, b, root_b),
    ensures
        tree_of(a, root_a, selection) == tree_of(b, root_b, selection),
    decreases a,
{
    if a.content is Dir {
        lemma_tree_of_dir(a, root_a, selection);
        lemma_tree_of_dir(b, root_b, selection);
        let alike = |x: FsEntry, y: FsEntry| alike_below_roots(x, root_a, y, root_b);
        let dirs_a = sort_by_name(dirs_of(a.children()));
        let dirs_b = sort_by_name(dirs_of(b.children()));
        let files_a = sort_by_name(files_of(a.children()));
        let files_b = sort_by_name(files_of(b.children()));
        assert(rows_related(a.children(), b.children(), alike));
        lemma_split_rows_related(a.children(), b.children(), alike);
        lemma_sorted_rows_related(dirs_of(a.children()), dirs_of(b.children()), alike);
        lemma_sorted_rows_related(files_of(a.children()), files_of(b.children()), alike);
        assert forall|k: int| 0 <= k < dirs_a.len() implies tree_of(
            #[trigger] dirs_a[k],
            root_a,
            selection,
        ) == tree_of(dirs_b[k], root_b, selection) by {
            assert(alike(dirs_a[k], dirs_b[k]));
            lemma_sorted_member(dirs_of(a.children()), k);
            a.children().lemma_filter_contains_rev(|child: FsEntry| child.is_dir(), dirs_a[k]);
            let j = choose|j: int| 0 <= j < a.children().len() && a.children()[j] == dirs_a[k];
            lemma_tree_holds_no_root(a.children()[j], root_a, dirs_b[k], root_b, selection);
        }
        assert forall|k: int| 0 <= k < files_a.len() implies file_node(
            #[trigger] files_a[k],
            root_a,
            selection,
        ) == file_node(files_b[k], root_b, selection) by {
            assert(alike(files_a[k], files_b[k]));
        }
        assert(walk(a.children(), root_a, selection) =~= walk(b.children(), root_b, selection));
    }
}

/// Where neither the videos root nor the URL prefix begins the other, the
/// path in the node of a file does not begin with the root.
pub proof fn lemma_root_begins_no_url(file: FsEntry, root: Seq<char>, selection: Option<Seq<char>>)
    requires
        file_node(file, root, selection) is Ok,
        !root.is_prefix_of(video_url_prefix()),
        !video_url_prefix().is_prefix_of(root),
    ensures
        file_node(file, root, selection)->Ok_0 matches NodeView::File { path, .. }
            && !root.is_prefix_of(path),
{
    lemma_file_node(file, root, selection);
    let path = file_node(file, root, selection)->Ok_0->File_path;
    let prefix = video_url_prefix();
    if root.is_prefix_of(path) {
        if root.len() <= prefix.len() {
            assert(root =~= prefix.subrange(0, root.len() as int)) by {
                assert forall|i: int| 0 <= i < root.len() implies root[i] == prefix[i] by {
                    assert(root[i] == path.subrange(0, root.len() as int)[i]);
                    assert(prefix[i] == path.subrange(0, prefix.len() as int)[i]);
                }
            }
        } else {
            assert(prefix =~= root.subrange(0, prefix.len() as int)) by {
                assert forall|i: int| 0 <= i < prefix.len() implies root[i] == prefix[i] by {
                    assert(root[i] == path.subrange(0, root.len() as int)[i]);
                    assert(prefix[i] == path.subrange(0, prefix.len() as int)[i]);
                }
            }
        }
    }
}

/// Where neither the videos root nor the URL prefix begins the other, no
/// path of a file in a tree that was built begins with the root.
pub proof fn lemma_root_begins_no_path(dir: FsEntry, root: Seq<char>, selection: Option<Seq<char>>)
    requires
        tree_of(dir, root, selection) is Ok,
        !root.is_prefix_of(video_url_prefix()),
        !video_url_prefix().is_prefix_of(root),
    ensures
        no_path_begins_with(tree_of(dir, root, selection)->Ok_0, root),
    decreases dir,
{
    let tree = tree_of(dir, root, selection)->Ok_0;
    let dirs = sort_by_name(dirs_of(dir.children()));
    let files = sort_by_name(files_of(dir.children()));
    lemma_entries_of_tree(dir, root, selection);
    assert forall|i: int| 0 <= i < tree.entries().len() implies no_path_begins_with(
        #[trigger] tree.entries()[i],
        root,
    ) by {
        if i < dirs.len() {
            let j = choose|j: int| 0 <= j < dir.children().len() && dir.children()[j] == dirs[i];
            lemma_root_begins_no_path(dir.children()[j], root, selection);
        } else {
            lemma_root_begins_no_url(files[i - dirs.len()], root, selection);
        }
    }
}

/// What passed a filter is in the filtered row as often as in the row, and
/// what did not pass is not in it.
proof fn lemma_filter_counts(
    entries: Seq<FsEntry>,
    wanted: spec_fn(FsEntry) -> bool,
    entry: FsEntry,
)
    ensures
        entries.filter(wanted).to_multiset().count(entry) == if wanted(entry) {
            entries.to_multiset().count(entry)
        } else {
            0
        },
    decreases entries.len(),
{
    broadcast use group_multiset_axioms;

    reveal(Seq::filter);
    if entries.len() == 0 {
        assert(entries.to_multiset() =~= Multiset::<FsEntry>::empty()) by {
            to_multiset_len(entries);
        }
    } else {
        let front = entries.drop_last();
        let last = entries.last();
        lemma_filter_counts(front, wanted, entry);
        assert(front.push(last) =~= entries);
        to_multiset_build(front, last);
        if wanted(last) {
            to_multiset_build(front.filter(wanted), last);
        }
    }
}

/// What is left of a row without two entries of one name has no two
/// entries of one name.
proof fn lemma_filter_keeps_names_distinct(entries: Seq<FsEntry>, wanted: spec_fn(FsEntry) -> bool)
    requires
        names_distinct(entries),
    ensures
        names_distinct(entries.filter(wanted)),
    decreases entries.len(),
{
    reveal(Seq::filter);
    if entries.len() > 0 {
        let front = entries.drop_last();
        let last = entries.last();
        assert forall|x: int, y: int| 0 <= x < y < front.len() implies (#[trigger] front[x]).name@
            != (#[trigger] front[y]).name@ by {
            assert(front[x] == entries[x] && front[y] == entries[y]);
        }
        lemma_filter_keeps_names_distinct(front, wanted);
        if wanted(last) {
            let kept = front.filter(wanted);
            assert forall|x: int, y: int| 0 <= x < y < kept.push(last).len() implies (
            #[trigger] kept.push(last)[x]).name@ != (#[trigger] kept.push(last)[y]).name@ by {
                if y == kept.len() {
                    assert(kept.contains(kept[x]));
                    front.lemma_filter_contains_rev(wanted, kept[x]);
                    let k = choose|k: int| 0 <= k < front.len() && front[k] == kept[x];
                    assert(entries[k] == kept[x]);
                    assert(entries[k].name@ != entries[entries.len() - 1].name@);
                }
            }
        }
    }
}

/// Where no two children of a directory have one name, what the walk
/// through them gives does not depend on the order in which they were read.
pub proof fn lemma_walk_any_order(
    a: Seq<FsEntry>,
    b: Seq<FsEntry>,
    root: Seq<char>,
    selection: Option<Seq<char>>,
)
    requires
        a.to_multiset() == b.to_multiset(),
        names_distinct(a),
    ensures
        walk(a, root, selection) == walk(b, root, selection),
{
    let is_dir = |child: FsEntry| child.is_dir();
    let is_file = |child: FsEntry| !child.is_dir();
    assert(dirs_of(a).to_multiset() =~= dirs_of(b).to_multiset()) by {
        assert forall|e: FsEntry|
            dirs_of(a).to_multiset().count(e) == dirs_of(b).to_multiset().count(e) by {
            lemma_filter_counts(a, is_dir, e);
            lemma_filter_counts(b, is_dir, e);
        }
    }
    assert(files_of(a).to_multiset() =~= files_of(b).to_multiset()) by {
        assert forall|e: FsEntry|
            files_of(a).to_multiset().count(e) == files_of(b).to_multiset().count(e) by {
            lemma_filter_counts(a, is_file, e);
            lemma_filter_counts(b, is_file, e);
        }
    }
    lemma_filter_keeps_names_distinct(a, is_dir);
    lemma_filter_keeps_names_distinct(a, is_file);
    lemma_sort_by_name_any_order(dirs_of(a), dirs_of(b));
    lemma_sort_by_name_any_order(files_of(a), files_of(b));
}

/// Where no two children of a directory have one name, its tree does not
/// depend on the order in which they were read.
pub proof fn lemma_tree_any_order(
    a: FsEntry,
    b: FsEntry,
    root: Seq<char>,
    selection: Option<Seq<char>>,
)
    requires
        a.name@ == b.name@,
        a.path@ == b.path@,
        a.content is Dir,
        b.content is Dir,
        a.children().to_multiset() == b.children().to_multiset(),
        names_distinct(a.children()),
    ensures
        tree_of(a, root, selection) == tree_of(b, root, selection),
{
    lemma_tree_of_dir(a, root, selection);
    lemma_tree_of_dir(b, root, selection);
    lemma_walk_any_order(a.children(), b.children(), root, selection);
}

/// Two entries are one listing but for the order of reading: they have one
/// name and one path and are of one kind, no two children of a directory
/// have one name, and the children of the one, put in some order, are one
/// listing each with the child of the other at the same place.
pub open spec fn same_but_order(a: FsEntry, b: FsEntry) -> bool
    decreases a,
{
    &&& a.name@ == b.name@
    &&& a.path@ == b.path@
    &&& match a.content {
        FsContent::File => b.content is File,
        FsContent::Unreadable => b.content is Unreadable,
        FsContent::Dir(children) => {
            &&& b.content is Dir
            &&& names_distinct(children@)
            &&& exists|row: Seq<FsEntry>|
                #![trigger row.to_multiset()]
                row.to_multiset() == b.children().to_multiset() && rows_same_but_order(
                    children@,
                    row,
                )
        },
    }
}

/// Two rows of entries are one listing each but for the order of reading,
/// place for place.
pub open spec fn rows_same_but_order(row_a: Seq<FsEntry>, row_b: Seq<FsEntry>) -> bool
    decreases row_a,
{
    &&& row_a.len() == row_b.len()
    &&& forall|i: int| 0 <= i < row_a.len() ==> same_but_order(#[trigger] row_a[i], row_b[i])
}

/// The children of the second directory in the order of the first.
proof fn lemma_row_in_order(a: FsEntry, b: FsEntry) -> (row: Seq<FsEntry>)
    requires
        same_but_order(a, b),
        a.content is Dir,
    ensures
        row.to_multiset() == b.children().to_multiset(),
        rows_same_but_order(a.children(), row),
{
    match a.content {
        FsContent::Dir(children) => {
            choose|row: Seq<FsEntry>|
                #![trigger row.to_multiset()]
                row.to_multiset() == b.children().to_multiset() && rows_same_but_order(
                    children@,
                    row,
                )
        },
        _ => Seq::empty(),
    }
}

/// The tree does not depend on the order in which the children of any
/// directory were read, where no two children of a directory have one name.
pub proof fn lemma_tree_any_order_below(
    a: FsEntry,
    b: FsEntry,
    root: Seq<char>,
    selection: Option<Seq<char>>,
)
    requires
        same_but_order(a, b),
    ensures
        tree_of(a, root, selection) == tree_of(b, root, selection),
    decreases a,
{
    if a.content is Dir {
        lemma_tree_of_dir(a, root, selection);
        lemma_tree_of_dir(b, root, selection);
        let same = |x: FsEntry, y: FsEntry| same_but_order(x, y);
        let row = lemma_row_in_order(a, b);
        assert forall|i: int, j: int| 0 <= i < j < row.len() implies (#[trigger] row[i]).name@ != (
        #[trigger] row[j]).name@ by {
            assert(same_but_order(a.children()[i], row[i]));
            assert(same_but_order(a.children()[j], row[j]));
        }
        lemma_walk_any_order(row, b.children(), root, selection);
        let dirs_a = sort_by_name(dirs_of(a.children()));
        let dirs_b = sort_by_name(dirs_of(row));
        let files_a = sort_by_name(files_of(a.children()));
        let files_b = sort_by_name(files_of(row));
        assert(keeps_name_and_kind(same)) by {
            assert forall|x: FsEntry, y: FsEntry| #[trigger] same(x, y) implies x.name@ == y.name@
                && x.is_dir() == y.is_dir() by {}
        }
        assert(rows_related(a.children(), row, same));
        lemma_split_rows_related(a.children(), row, same);
        lemma_sorted_rows_related(dirs_of(a.children()), dirs_of(row), same);
        lemma_sorted_rows_related(files_of(a.children()), files_of(row), same);
        assert forall|k: int| 0 <= k < dirs_a.len() implies tree_of(
            #[trigger] dirs_a[k],
            root,
            selection,
        ) == tree_of(dirs_b[k], root, selection) by {
            assert(same(dirs_a[k], dirs_b[k]));
            lemma_sorted_member(dirs_of(a.children()), k);
            a.children().lemma_filter_contains_rev(|child: FsEntry| child.is_dir(), dirs_a[k]);
            let j = choose|j: int| 0 <= j < a.children().len() && a.children()[j] == dirs_a[k];
            lemma_tree_any_order_below(a.children()[j], dirs_b[k], root, selection);
        }
        assert forall|k: int| 0 <= k < files_a.len() implies file_node(
            #[trigger] files_a[k],
            root,
            selection,
        ) == file_node(files_b[k], root, selection) by {
            assert(same(files_a[k], files_b[k]));
        }
        assert(walk(a.children(), root, selection) =~= walk(row, root, selection));
    }
}

} // verus!
