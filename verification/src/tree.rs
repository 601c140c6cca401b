//! The tree that the index page shows.

use crate::context::{field_views, item_views, ContextValue, ContextView};
use vstd::prelude::*;
use vstd::string::*;

verus! {

/// A node of the tree: a directory with its entries, or a file with the URL
/// path under which it is served.
#[derive(Debug, PartialEq, Eq)]
pub enum TreeNode {
    /// A directory.
    Dir {
        /// The directory's own name.
        name: String,
        /// Whether the selection lies in this directory or below it.
        is_opened: bool,
        /// Directories first, then files, each group by name.
        entries: Vec<TreeNode>,
    },
    /// A file.
    File {
        /// The file's own name.
        name: String,
        /// Whether the file is the selection.
        is_opened: bool,
        /// The URL path of the file.
        path: String,
    },
}

/// A tree node as a mathematical value.
pub enum NodeView {
    Dir { name: Seq<char>, is_opened: bool, entries: Seq<NodeView> },
    File { name: Seq<char>, is_opened: bool, path: Seq<char> },
}

impl NodeView {
    pub open spec fn is_dir(self) -> bool {
        self is Dir
    }

    pub open spec fn name(self) -> Seq<char> {
        match self {
            NodeView::Dir { name, .. } => name,
            NodeView::File { name, .. } => name,
        }
    }

    pub open spec fn is_opened(self) -> bool {
        match self {
            NodeView::Dir { is_opened, .. } => is_opened,
            NodeView::File { is_opened, .. } => is_opened,
        }
    }

    /// The entries of a directory; a file has none.
    pub open spec fn entries(self) -> Seq<NodeView> {
        match self {
            NodeView::Dir { entries, .. } => entries,
            NodeView::File { .. } => Seq::empty(),
        }
    }
}

/// The value that a node stands for.
pub open spec fn node_view(node: TreeNode) -> NodeView
    decreases node,
{
    match node {
        TreeNode::Dir { name, is_opened, entries } => NodeView::Dir {
            name: name@,
            is_opened,
            entries: Seq::new(
                entries@.len(),
                |i: int|
                    if 0 <= i < entries@.len() {
                        node_view(entries@[i])
                    } else {
                        arbitrary()
                    },
            ),
        },
        TreeNode::File { name, is_opened, path } => NodeView::File {
            name: name@,
            is_opened,
            path: path@,
        },
    }
}

impl View for TreeNode {
    type V = NodeView;

    open spec fn view(&self) -> NodeView {
        node_view(*self)
    }
}

/// A node as the page template reads it: a record of `is_dir`, `type`,
/// `name` and `is_opened`, with the `entries` of a directory and the `path`
/// of a file.
pub open spec fn node_value(node: NodeView) -> ContextView
    decreases node,
{
    match node {
        NodeView::Dir { name, is_opened, entries } => ContextView::Record(
            seq![
                ("is_dir"@, ContextView::Bool(true)),
                ("type"@, ContextView::Text("dir"@)),
                ("name"@, ContextView::Text(name)),
                ("is_opened"@, ContextView::Bool(is_opened)),
                ("entries"@, ContextView::List(node_values(entries, entries.len()))),
            ],
        ),
        NodeView::File { name, is_opened, path } => ContextView::Record(
            seq![
                ("is_dir"@, ContextView::Bool(false)),
                ("type"@, ContextView::Text("file"@)),
                ("name"@, ContextView::Text(name)),
                ("path"@, ContextView::Text(path)),
                ("is_opened"@, ContextView::Bool(is_opened)),
            ],
        ),
    }
}

/// The first `count` of a row of nodes as the page template reads them.
pub open spec fn node_values(nodes: Seq<NodeView>, count: nat) -> Seq<ContextView>
    decreases nodes, count,
{
    if count == 0 || count > nodes.len() {
        Seq::empty()
    } else {
        node_values(nodes, (count - 1) as nat).push(node_value(nodes[count - 1]))
    }
}

/// The views of a row of nodes.
pub open spec fn views(nodes: Seq<TreeNode>) -> Seq<NodeView> {
    Seq::new(nodes.len(), |i: int| nodes[i]@)
}

impl TreeNode {
    /// The directory with `entries` in place of its own. A file stays as it
    /// is.
    pub fn with_entries(self, entries: Vec<TreeNode>) -> (r: TreeNode)
        ensures
            r@ == match self@ {
                NodeView::Dir { name, is_opened, .. } => NodeView::Dir {
                    name,
                    is_opened,
                    entries: views(entries@),
                },
                file => file,
            },
    {
        match self {
            TreeNode::Dir { name, is_opened, .. } => {
                let node = TreeNode::Dir { name, is_opened, entries };
                assert(node@.entries() =~= views(entries@));
                node
            },
            file => file,
        }
    }

    /// The node as the page template reads it.
    pub fn to_value(&self) -> (r: ContextValue)
        ensures
            r@ == node_value(self@),
        decreases self,
    {
        let mut fields: Vec<(String, ContextValue)> = Vec::new();
        match self {
            TreeNode::Dir { name, is_opened, entries } => {
                let mut items: Vec<ContextValue> = Vec::new();
                let mut i: usize = 0;
                while i < entries.len()
                    invariant
                        i <= entries.len(),
                        *self == (TreeNode::Dir { name: *name, is_opened: *is_opened, entries: *entries }),
                        item_views(items@) == node_values(self@.entries(), i as nat),
                    decreases entries.len() - i,
                {
                    let item = entries[i].to_value();
                    proof {
                        assert(self@.entries()[i as int] == entries@[i as int]@);
                        assert(item_views(items@.push(item)) =~= item_views(items@).push(item@));
                    }
                    items.push(item);
                    i += 1;
                }
                fields.push(("is_dir".to_owned(), ContextValue::Bool(true)));
                fields.push(("type".to_owned(), ContextValue::text(self.kind())));
                fields.push(("name".to_owned(), ContextValue::text(name.as_str())));
                fields.push(("is_opened".to_owned(), ContextValue::Bool(*is_opened)));
                fields.push(("entries".to_owned(), ContextValue::list(items)));
            },
            TreeNode::File { name, is_opened, path } => {
                fields.push(("is_dir".to_owned(), ContextValue::Bool(false)));
                fields.push(("type".to_owned(), ContextValue::text(self.kind())));
                fields.push(("name".to_owned(), ContextValue::text(name.as_str())));
                fields.push(("path".to_owned(), ContextValue::text(path.as_str())));
                fields.push(("is_opened".to_owned(), ContextValue::Bool(*is_opened)));
            },
        }
        let r = ContextValue::record(fields);
        assert(r@->Record_0 =~= node_value(self@)->Record_0);
        r
    }

    /// Whether the node is a directory.
    pub fn is_dir(&self) -> (r: bool)
        ensures
            r == self@.is_dir(),
    {
        match self {
            TreeNode::Dir { .. } => true,
            TreeNode::File { .. } => false,
        }
    }

    /// The node's kind as the page template reads it: `dir` or `file`.
    pub fn kind(&self) -> (r: &'static str)
        ensures
            r@ == if self@.is_dir() {
                "dir"@
            } else {
                "file"@
            },
    {
        match self {
            TreeNode::Dir { .. } => "dir",
            TreeNode::File { .. } => "file",
        }
    }

    /// The node's own name.
    pub fn name(&self) -> (r: &str)
        ensures
            r@ == self@.name(),
    {
        match self {
            TreeNode::Dir { name, .. } => name.as_str(),
            TreeNode::File { name, .. } => name.as_str(),
        }
    }

    /// Whether the node is the selection or lies above it.
    pub fn is_opened(&self) -> (r: bool)
        ensures
            r == self@.is_opened(),
    {
        match self {
            TreeNode::Dir { is_opened, .. } => *is_opened,
            TreeNode::File { is_opened, .. } => *is_opened,
        }
    }

    /// The entries of a directory; nothing for a file.
    pub fn entries(&self) -> (r: Option<&Vec<TreeNode>>)
        ensures
            r is Some == self@.is_dir(),
            r matches Some(entries) ==> views(entries@) == self@.entries(),
    {
        match self {
            TreeNode::Dir { entries, .. } => {
                assert(views(entries@) =~= self@.entries());
                Some(entries)
            },
            TreeNode::File { .. } => None,
        }
    }

    /// The URL path of a file; nothing for a directory.
    pub fn path(&self) -> (r: Option<&str>)
        ensures
            match r {
                Some(path) => self@ matches NodeView::File { path: p, .. } && path@ == p,
                None => self@.is_dir(),
            },
    {
        match self {
            TreeNode::Dir { .. } => None,
            TreeNode::File { path, .. } => Some(path.as_str()),
        }
    }
}

} // verus!
