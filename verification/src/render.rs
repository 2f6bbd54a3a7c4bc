//! The ASCII tree view, as a specification: one connector-prefixed line per
//! node, children in stored (sorted) order, the last sibling marked with a
//! corner connector and its descendants indented with spaces, every other
//! sibling marked with a tee and its descendants carried on with a bar.

use vstd::prelude::*;
use crate::tree::TreeNodeView;

verus! {

/// The connector put before a node's display name on its own line.
pub open spec fn connector(is_last: bool) -> Seq<char> {
    if is_last {
        "└── "@
    } else {
        "├── "@
    }
}

/// What a node's line adds to the indentation of its descendants' lines.
pub open spec fn child_indent(is_last: bool) -> Seq<char> {
    if is_last {
        "    "@
    } else {
        "│   "@
    }
}

/// A node's display name: its bare name for a file, a trailing separator
/// marking a directory otherwise.
pub open spec fn display_name(t: TreeNodeView) -> Seq<char> {
    if t.file is Some {
        t.name
    } else {
        t.name + "/"@
    }
}

/// The tree-view lines of the first `i` children of a sibling list rendered
/// under `prefix`: for each child in order, its own connector line followed
/// by the lines of its whole subtree.
pub open spec fn render_children(children: Seq<TreeNodeView>, prefix: Seq<char>, i: int) -> Seq<char>
    decreases children, i,
{
    if i <= 0 || i > children.len() {
        Seq::empty()
    } else {
        let c = children[i - 1];
        let is_last = i == children.len();
        render_children(children, prefix, i - 1) + prefix + connector(is_last) + display_name(c)
            + seq!['\n'] + render_children(
            c.children,
            prefix + child_indent(is_last),
            c.children.len() as int,
        )
    }
}

/// What one call of the recursive renderer appends: the given label line, if
/// any, then the lines of all children under `prefix`.
pub open spec fn tree_entry(t: TreeNodeView, prefix: Seq<char>, label: Seq<char>) -> Seq<char> {
    (if label.len() == 0 {
        Seq::<char>::empty()
    } else {
        label + seq!['\n']
    }) + render_children(t.children, prefix, t.children.len() as int)
}

/// The whole tree view: the synthetic root adds no line of its own.
pub open spec fn spec_tree_view(root: TreeNodeView) -> Seq<char> {
    render_children(root.children, Seq::empty(), root.children.len() as int)
}

} // verus!
