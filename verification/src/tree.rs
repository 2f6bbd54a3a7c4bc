//! The prefix tree over all input paths. Each node stands for one path
//! segment; a node carries a file record exactly when it is the terminal
//! segment of some input path. Children are kept sorted by name, so both
//! renderers can walk the tree in its stored order.

use vstd::prelude::*;
use crate::fileinfo::{FileInfo, FileInfoView};
use crate::strutil::lex_lt;
use crate::strutil::str_lt;

verus! {

/// The mathematical image of a `TreeNode`.
pub ghost struct TreeNodeView {
    pub name: Seq<char>,
    pub file: Option<FileInfoView>,
    pub children: Seq<TreeNodeView>,
}

/// One segment of a decomposed path. The synthetic root has an empty name
/// and no file; `file` is set exactly on nodes that terminate an input path.
pub struct TreeNode {
    pub name: String,
    pub file: Option<FileInfo>,
    pub children: Vec<TreeNode>,
}

pub open spec fn node_view(n: TreeNode) -> TreeNodeView
    decreases n,
{
    TreeNodeView {
        name: n.name@,
        file: match n.file {
            Some(f) => Some(f@),
            None => None,
        },
        children: kids_view(n.children@),
    }
}

pub open spec fn kids_view(s: Seq<TreeNode>) -> Seq<TreeNodeView>
    decreases s,
{
    if s.len() == 0 {
        Seq::empty()
    } else {
        seq![node_view(s[0])] + kids_view(s.drop_first())
    }
}

impl View for TreeNode {
    type V = TreeNodeView;

    open spec fn view(&self) -> TreeNodeView {
        node_view(*self)
    }
}

pub proof fn lemma_kids_view_len(s: Seq<TreeNode>)
    ensures
        kids_view(s).len() == s.len(),
    decreases s,
{
    if s.len() > 0 {
        lemma_kids_view_len(s.drop_first());
    }
}

pub proof fn lemma_kids_view_index(s: Seq<TreeNode>, i: int)
    requires
        0 <= i < s.len(),
    ensures
        kids_view(s).len() == s.len(),
        kids_view(s)[i] == node_view(s[i]),
    decreases s,
{
    lemma_kids_view_len(s);
    if i > 0 {
        lemma_kids_view_index(s.drop_first(), i - 1);
        assert(s.drop_first()[i - 1] == s[i]);
    }
}

proof fn lemma_kids_view_cons(h: TreeNode, t: Seq<TreeNode>)
    ensures
        kids_view(seq![h] + t) == seq![node_view(h)] + kids_view(t),
{
    let s = seq![h] + t;
    assert(s[0] == h);
    assert(s.drop_first() =~= t);
}

/// Inserting a record whose remaining segments are `segs[i..]` into a
/// sorted sibling list. A missing node is created at its sorted position;
/// walking through an existing node keeps its file; on the final segment the
/// reached node's file is overwritten with the record (last write wins).
pub open spec fn insert_segs(
    children: Seq<TreeNodeView>,
    segs: Seq<Seq<char>>,
    i: int,
    f: FileInfoView,
) -> Seq<TreeNodeView>
    decreases segs.len() - i, children.len(),
{
    if !(0 <= i < segs.len()) {
        children
    } else if children.len() == 0 {
        seq![fresh_node(segs, i, f)]
    } else if lex_lt(children[0].name, segs[i]) {
        seq![children[0]] + insert_segs(children.drop_first(), segs, i, f)
    } else if children[0].name == segs[i] {
        let c = children[0];
        let updated = if i == segs.len() - 1 {
            TreeNodeView { name: c.name, file: Some(f), children: c.children }
        } else {
            TreeNodeView {
                name: c.name,
                file: c.file,
                children: insert_segs(c.children, segs, i + 1, f),
            }
        };
        seq![updated] + children.drop_first()
    } else {
        seq![fresh_node(segs, i, f)] + children
    }
}

/// The chain of new nodes created for the path suffix `segs[i..]` when no
/// existing node matches: directory nodes down to a final node carrying `f`.
pub open spec fn fresh_node(segs: Seq<Seq<char>>, i: int, f: FileInfoView) -> TreeNodeView
    decreases segs.len() - i, 0int,
{
    if !(0 <= i < segs.len()) {
        TreeNodeView { name: Seq::empty(), file: None, children: Seq::empty() }
    } else if i == segs.len() - 1 {
        TreeNodeView { name: segs[i], file: Some(f), children: Seq::empty() }
    } else {
        TreeNodeView { name: segs[i], file: None, children: seq![fresh_node(segs, i + 1, f)] }
    }
}

/// The sibling list that results from inserting the first `n` records, in
/// order, into an initially empty root.
pub open spec fn build_children(records: Seq<FileInfoView>, n: int) -> Seq<TreeNodeView>
    decreases n,
{
    if n <= 0 {
        Seq::empty()
    } else {
        insert_segs(build_children(records, n - 1), records[n - 1].path, 0, records[n - 1])
    }
}

/// The tree built from a whole record list: a root with empty name, no
/// file, and the folded-in children.
pub open spec fn build_root(records: Seq<FileInfoView>) -> TreeNodeView {
    TreeNodeView {
        name: Seq::empty(),
        file: None,
        children: build_children(records, records.len() as int),
    }
}

/// A sibling list is well-formed when each node is well-formed and the
/// names stand strictly sorted: unique and in `lex_lt` order.
pub open spec fn siblings_wf(children: Seq<TreeNodeView>) -> bool
    decreases children,
{
    &&& (forall|i: int| 0 <= i < children.len() ==> (#[trigger] children[i]).wf())
    &&& (forall|i: int, j: int|
        #![trigger children[i], children[j]]
        0 <= i < j < children.len() ==> lex_lt(children[i].name, children[j].name))
}

impl TreeNodeView {
    /// Well-formed: at every node of the subtree the children's names are
    /// strictly increasing, so sibling names are unique and sorted.
    pub open spec fn wf(self) -> bool
        decreases self,
    {
        siblings_wf(self.children)
    }
}

proof fn lemma_siblings_wf_drop(children: Seq<TreeNodeView>)
    requires
        siblings_wf(children),
        children.len() > 0,
    ensures
        siblings_wf(children.drop_first()),
{
    let t = children.drop_first();
    assert forall|i: int| 0 <= i < t.len() implies (#[trigger] t[i]).wf() by {
        assert(t[i] == children[i + 1]);
    }
    assert forall|i: int, j: int|
        #![trigger t[i], t[j]]
        0 <= i < j < t.len() implies lex_lt(t[i].name, t[j].name) by {
        assert(t[i] == children[i + 1]);
        assert(t[j] == children[j + 1]);
    }
}

proof fn lemma_fresh_node_wf(segs: Seq<Seq<char>>, i: int, f: FileInfoView)
    ensures
        fresh_node(segs, i, f).wf(),
    decreases segs.len() - i,
{
    if 0 <= i < segs.len() - 1 {
        lemma_fresh_node_wf(segs, i + 1, f);
    }
}

/// Every name in the inserted list is the inserted segment's name or a name
/// that was already there.
proof fn lemma_insert_names(
    children: Seq<TreeNodeView>,
    segs: Seq<Seq<char>>,
    i: int,
    f: FileInfoView,
)
    requires
        0 <= i < segs.len(),
    ensures
        forall|k: int|
            0 <= k < insert_segs(children, segs, i, f).len()
                ==> (#[trigger] insert_segs(children, segs, i, f)[k]).name == segs[i] || (exists|m: int|
                0 <= m < children.len() && children[m].name == insert_segs(children, segs, i, f)[k].name),
    decreases children.len(),
{
    let r = insert_segs(children, segs, i, f);
    if children.len() == 0 {
    } else if lex_lt(children[0].name, segs[i]) {
        lemma_insert_names(children.drop_first(), segs, i, f);
        let rest = insert_segs(children.drop_first(), segs, i, f);
        assert forall|k: int| 0 <= k < r.len() implies (#[trigger] r[k]).name == segs[i] || (exists|m: int|
            0 <= m < children.len() && children[m].name == r[k].name) by {
            if k == 0 {
                assert(children[0].name == r[0].name);
            } else {
                assert(r[k] == rest[k - 1]);
                if rest[k - 1].name != segs[i] {
                    let m = choose|m: int|
                        0 <= m < children.drop_first().len() && children.drop_first()[m].name == rest[k
                            - 1].name;
                    assert(children[m + 1].name == r[k].name);
                }
            }
        }
    } else if children[0].name == segs[i] {
        assert forall|k: int| 0 <= k < r.len() implies (#[trigger] r[k]).name == segs[i] || (exists|m: int|
            0 <= m < children.len() && children[m].name == r[k].name) by {
            if k > 0 {
                assert(r[k] == children.drop_first()[k - 1]);
                assert(children[k].name == r[k].name);
            }
        }
    } else {
        assert forall|k: int| 0 <= k < r.len() implies (#[trigger] r[k]).name == segs[i] || (exists|m: int|
            0 <= m < children.len() && children[m].name == r[k].name) by {
            if k > 0 {
                assert(r[k] == children[k - 1]);
            }
        }
    }
}

/// Inserting a record keeps a sibling list well-formed: the new node, if
/// one is created, stands at its sorted position.
proof fn lemma_insert_wf(children: Seq<TreeNodeView>, segs: Seq<Seq<char>>, i: int, f: FileInfoView)
    requires
        siblings_wf(children),
        0 <= i,
    ensures
        siblings_wf(insert_segs(children, segs, i, f)),
    decreases segs.len() - i, children.len(),
{
    if !(0 <= i < segs.len()) {
    } else if children.len() == 0 {
        lemma_fresh_node_wf(segs, i, f);
    } else if lex_lt(children[0].name, segs[i]) {
        lemma_siblings_wf_drop(children);
        lemma_insert_wf(children.drop_first(), segs, i, f);
        lemma_insert_names(children.drop_first(), segs, i, f);
        let rest = insert_segs(children.drop_first(), segs, i, f);
        let r = insert_segs(children, segs, i, f);
        assert(r == seq![children[0]] + rest);
        assert forall|k: int| 0 <= k < r.len() implies (#[trigger] r[k]).wf() by {
            if k == 0 {
                assert(r[0] == children[0]);
            } else {
                assert(r[k] == rest[k - 1]);
            }
        }
        assert forall|a: int, b: int|
            #![trigger r[a], r[b]]
            0 <= a < b < r.len() implies lex_lt(r[a].name, r[b].name) by {
            if a == 0 {
                assert(r[b] == rest[b - 1]);
                if rest[b - 1].name == segs[i] {
                    assert(lex_lt(children[0].name, r[b].name));
                } else {
                    let m = choose|m: int|
                        0 <= m < children.drop_first().len() && children.drop_first()[m].name == rest[b
                            - 1].name;
                    assert(children.drop_first()[m] == children[m + 1]);
                    assert(lex_lt(children[0].name, children[m + 1].name));
                }
            } else {
                assert(r[a] == rest[a - 1]);
                assert(r[b] == rest[b - 1]);
            }
        }
    } else if children[0].name == segs[i] {
        let c = children[0];
        assert(c.wf());
        if i == segs.len() - 1 {
            let r = insert_segs(children, segs, i, f);
            assert forall|k: int| 0 <= k < r.len() implies (#[trigger] r[k]).wf() by {
                if k > 0 {
                    assert(r[k] == children.drop_first()[k - 1]);
                    assert(r[k] == children[k]);
                }
            }
            assert forall|a: int, b: int|
                #![trigger r[a], r[b]]
                0 <= a < b < r.len() implies lex_lt(r[a].name, r[b].name) by {
                assert(r[a].name == children[a].name);
                assert(r[b].name == children[b].name);
            }
        } else {
            lemma_insert_wf(c.children, segs, i + 1, f);
            let r = insert_segs(children, segs, i, f);
            assert forall|k: int| 0 <= k < r.len() implies (#[trigger] r[k]).wf() by {
                if k > 0 {
                    assert(r[k] == children.drop_first()[k - 1]);
                    assert(r[k] == children[k]);
                }
            }
            assert forall|a: int, b: int|
                #![trigger r[a], r[b]]
                0 <= a < b < r.len() implies lex_lt(r[a].name, r[b].name) by {
                assert(r[a].name == children[a].name);
                assert(r[b].name == children[b].name);
            }
        }
    } else {
        crate::strutil::lemma_lex_lt_trichotomy(children[0].name, segs[i]);
        assert(lex_lt(segs[i], children[0].name));
        lemma_fresh_node_wf(segs, i, f);
        let r = insert_segs(children, segs, i, f);
        assert forall|k: int| 0 <= k < r.len() implies (#[trigger] r[k]).wf() by {
            if k > 0 {
                assert(r[k] == children[k - 1]);
            }
        }
        assert forall|a: int, b: int|
            #![trigger r[a], r[b]]
            0 <= a < b < r.len() implies lex_lt(r[a].name, r[b].name) by {
            assert(r[b] == children[b - 1]);
            if a == 0 {
                if b > 1 {
                    crate::strutil::lemma_lex_lt_trans(
                        segs[i],
                        children[0].name,
                        children[b - 1].name,
                    );
                }
            } else {
                assert(r[a] == children[a - 1]);
            }
        }
    }
}

/// The node reached from a sibling list by following the path suffix
/// `segs[i..]`: at each level the child whose name equals the next segment,
/// `None` where no such child exists.
pub open spec fn lookup_in(
    children: Seq<TreeNodeView>,
    segs: Seq<Seq<char>>,
    i: int,
) -> Option<TreeNodeView>
    decreases segs.len() - i, children.len(),
{
    if !(0 <= i < segs.len()) {
        None
    } else if children.len() == 0 {
        None
    } else if children[0].name == segs[i] {
        if i == segs.len() - 1 {
            Some(children[0])
        } else {
            lookup_in(children[0].children, segs, i + 1)
        }
    } else {
        lookup_in(children.drop_first(), segs, i)
    }
}

/// The two paths agree from position `i` on, including their lengths.
pub open spec fn same_suffix(q: Seq<Seq<char>>, segs: Seq<Seq<char>>, i: int) -> bool
    decreases q.len() - i,
{
    if i >= q.len() && i >= segs.len() {
        true
    } else if i < q.len() && i < segs.len() {
        q[i] == segs[i] && same_suffix(q, segs, i + 1)
    } else {
        false
    }
}

proof fn lemma_lookup_absent(children: Seq<TreeNodeView>, segs: Seq<Seq<char>>, i: int)
    requires
        forall|m: int| 0 <= m < children.len() ==> (#[trigger] children[m]).name != segs[i],
    ensures
        lookup_in(children, segs, i) is None,
    decreases children.len(),
{
    if 0 <= i < segs.len() && children.len() > 0 {
        lemma_lookup_absent(children.drop_first(), segs, i);
    }
}

/// Looking up the full inserted path right after the insertion finds a node
/// that carries the inserted record.
proof fn lemma_fresh_lookup(segs: Seq<Seq<char>>, i: int, f: FileInfoView)
    requires
        0 <= i < segs.len(),
    ensures
        lookup_in(seq![fresh_node(segs, i, f)], segs, i) matches Some(n) && n.file == Some(f),
    decreases segs.len() - i,
{
    let c = fresh_node(segs, i, f);
    assert(seq![c][0] == c);
    if i < segs.len() - 1 {
        lemma_fresh_lookup(segs, i + 1, f);
    }
}

proof fn lemma_insert_lookup(children: Seq<TreeNodeView>, segs: Seq<Seq<char>>, i: int, f: FileInfoView)
    requires
        0 <= i < segs.len(),
    ensures
        lookup_in(insert_segs(children, segs, i, f), segs, i) matches Some(n) && n.file == Some(f),
    decreases segs.len() - i, children.len(),
{
    let r = insert_segs(children, segs, i, f);
    if children.len() == 0 {
        lemma_fresh_lookup(segs, i, f);
    } else if lex_lt(children[0].name, segs[i]) {
        crate::strutil::lemma_lex_lt_irrefl(children[0].name);
        if children[0].name == segs[i] {
            assert(false);
        }
        lemma_insert_lookup(children.drop_first(), segs, i, f);
        let rest = insert_segs(children.drop_first(), segs, i, f);
        assert(r[0] == children[0]);
        assert(r.drop_first() =~= rest);
    } else if children[0].name == segs[i] {
        if i < segs.len() - 1 {
            lemma_insert_lookup(children[0].children, segs, i + 1, f);
        }
        assert(r[0].name == segs[i]);
    } else {
        lemma_fresh_lookup(segs, i, f);
        assert(r[0] == fresh_node(segs, i, f));
        if i < segs.len() - 1 {
            assert(lookup_in(r, segs, i) == lookup_in(r[0].children, segs, i + 1));
            assert(lookup_in(seq![fresh_node(segs, i, f)], segs, i) == lookup_in(
                fresh_node(segs, i, f).children,
                segs,
                i + 1,
            ));
        }
    }
}

/// A node that an earlier insertion placed on some path is still there, its
/// file still set, after any later insertion.
proof fn lemma_insert_preserves_node(
    children: Seq<TreeNodeView>,
    segs: Seq<Seq<char>>,
    i: int,
    f: FileInfoView,
    q: Seq<Seq<char>>,
)
    requires
        siblings_wf(children),
        0 <= i < q.len(),
        lookup_in(children, q, i) is Some,
    ensures
        lookup_in(insert_segs(children, segs, i, f), q, i) is Some,
        lookup_in(children, q, i)->0.file is Some ==> lookup_in(insert_segs(children, segs, i, f), q, i)->0.file
            is Some,
    decreases q.len() - i, children.len(),
{
    let r = insert_segs(children, segs, i, f);
    if !(0 <= i < segs.len()) {
    } else if children.len() == 0 {
    } else if lex_lt(children[0].name, segs[i]) {
        let rest = insert_segs(children.drop_first(), segs, i, f);
        assert(r[0] == children[0]);
        assert(r.drop_first() =~= rest);
        if children[0].name == q[i] {
        } else {
            lemma_siblings_wf_drop(children);
            lemma_insert_preserves_node(children.drop_first(), segs, i, f, q);
        }
    } else if children[0].name == segs[i] {
        let c = children[0];
        assert(r.drop_first() =~= children.drop_first());
        if q[i] == c.name {
            assert(r[0].name == q[i]);
            if i == q.len() - 1 {
            } else {
                if i == segs.len() - 1 {
                    assert(r[0].children == c.children);
                } else {
                    assert(c.wf());
                    lemma_insert_preserves_node(c.children, segs, i + 1, f, q);
                }
            }
        } else {
            assert(lookup_in(children, q, i) == lookup_in(children.drop_first(), q, i));
            assert(lookup_in(r, q, i) == lookup_in(r.drop_first(), q, i));
        }
    } else {
        crate::strutil::lemma_lex_lt_trichotomy(children[0].name, segs[i]);
        assert(lex_lt(segs[i], children[0].name));
        assert(r[0] == fresh_node(segs, i, f));
        assert(r.drop_first() =~= children);
        if q[i] == segs[i] {
            assert forall|m: int| 0 <= m < children.len() implies (#[trigger] children[m]).name
                != q[i] by {
                if children[m].name == q[i] {
                    if m > 0 {
                        assert(lex_lt(children[0].name, children[m].name));
                        crate::strutil::lemma_lex_lt_trans(
                            segs[i],
                            children[0].name,
                            children[m].name,
                        );
                    }
                    crate::strutil::lemma_lex_lt_irrefl(segs[i]);
                }
            }
            lemma_lookup_absent(children, q, i);
        } else {
            assert(r[0].name != q[i]);
        }
    }
}

/// Terminal-node law, first half of the tree-shape invariant: after
/// building, the terminal node of every record's non-empty path exists and
/// carries a file (the record's own, or a later duplicate's).
proof fn lemma_build_terminal_rec(records: Seq<FileInfoView>, k: int, n: int)
    requires
        0 <= k < n <= records.len(),
        records[k].path.len() > 0,
    ensures
        lookup_in(build_children(records, n), records[k].path, 0) matches Some(node) && node.file
            is Some,
    decreases n,
{
    if n == k + 1 {
        lemma_insert_lookup(build_children(records, k), records[k].path, 0, records[k]);
    } else {
        lemma_build_terminal_rec(records, k, n - 1);
        lemma_build_children_wf(records, n - 1);
        lemma_insert_preserves_node(
            build_children(records, n - 1),
            records[n - 1].path,
            0,
            records[n - 1],
            records[k].path,
        );
    }
}

/// For every record with a non-empty path, the built tree holds a node at
/// exactly that path, and that node has its file attached.
pub proof fn lemma_build_terminal_has_file(records: Seq<FileInfoView>, k: int)
    requires
        0 <= k < records.len(),
        records[k].path.len() > 0,
    ensures
        lookup_in(build_root(records).children, records[k].path, 0) matches Some(node) && node.file
            is Some,
{
    lemma_build_terminal_rec(records, k, records.len() as int);
}

proof fn lemma_same_suffix_full(q: Seq<Seq<char>>, segs: Seq<Seq<char>>, i: int)
    requires
        0 <= i,
        same_suffix(q, segs, i),
    ensures
        q.len() == segs.len() || i > q.len() || i > segs.len(),
        forall|m: int| i <= m < q.len() && m < segs.len() ==> q[m] == segs[m],
    decreases q.len() - i,
{
    if i < q.len() && i < segs.len() {
        lemma_same_suffix_full(q, segs, i + 1);
    }
}

/// Any node that a fresh chain holds at a position other than the inserted
/// path's end carries no file.
proof fn lemma_fresh_off_path(segs: Seq<Seq<char>>, i: int, f: FileInfoView, q: Seq<Seq<char>>)
    requires
        0 <= i < segs.len(),
        0 <= i < q.len(),
        !same_suffix(q, segs, i),
    ensures
        lookup_in(seq![fresh_node(segs, i, f)], q, i) matches Some(n) ==> n.file is None,
    decreases q.len() - i,
{
    let c = fresh_node(segs, i, f);
    assert(seq![c][0] == c);
    assert(seq![c].drop_first() =~= Seq::<TreeNodeView>::empty());
    if q[i] == segs[i] {
        if i == q.len() - 1 {
            if i == segs.len() - 1 {
                assert(same_suffix(q, segs, i + 1));
                assert(false);
            }
        } else {
            assert(lookup_in(seq![c], q, i) == lookup_in(c.children, q, i + 1));
            if i < segs.len() - 1 {
                assert(c.children == seq![fresh_node(segs, i + 1, f)]);
                assert(!same_suffix(q, segs, i + 1));
                lemma_fresh_off_path(segs, i + 1, f, q);
            } else {
                assert(c.children =~= Seq::<TreeNodeView>::empty());
                assert(lookup_in(Seq::<TreeNodeView>::empty(), q, i + 1) is None);
            }
        }
    } else {
        assert(c.name != q[i]);
        assert(lookup_in(Seq::<TreeNodeView>::empty(), q, i) is None);
        assert(lookup_in(seq![c], q, i) == lookup_in(seq![c].drop_first(), q, i));
    }
}

/// After one insertion, a node with a file at any path other than the
/// inserted one already had its file before the insertion.
proof fn lemma_insert_off_path(
    children: Seq<TreeNodeView>,
    segs: Seq<Seq<char>>,
    i: int,
    f: FileInfoView,
    q: Seq<Seq<char>>,
)
    requires
        siblings_wf(children),
        0 <= i < q.len(),
        !same_suffix(q, segs, i),
    ensures
        (lookup_in(insert_segs(children, segs, i, f), q, i) matches Some(n) && n.file is Some) ==> (
        lookup_in(children, q, i) matches Some(m) && m.file is Some),
    decreases q.len() - i, children.len(),
{
    let r = insert_segs(children, segs, i, f);
    if !(0 <= i < segs.len()) {
    } else if children.len() == 0 {
        assert(r =~= seq![fresh_node(segs, i, f)]);
        lemma_fresh_off_path(segs, i, f, q);
    } else if lex_lt(children[0].name, segs[i]) {
        let rest = insert_segs(children.drop_first(), segs, i, f);
        assert(r[0] == children[0]);
        assert(r.drop_first() =~= rest);
        if children[0].name == q[i] {
        } else {
            lemma_siblings_wf_drop(children);
            lemma_insert_off_path(children.drop_first(), segs, i, f, q);
        }
    } else if children[0].name == segs[i] {
        let c = children[0];
        assert(r.drop_first() =~= children.drop_first());
        if q[i] == c.name {
            assert(r[0].name == q[i]);
            if i == q.len() - 1 {
                if i == segs.len() - 1 {
                    assert(same_suffix(q, segs, i + 1));
                    assert(false);
                } else {
                    assert(r[0].file == c.file);
                }
            } else {
                if i == segs.len() - 1 {
                    assert(r[0].children == c.children);
                } else {
                    assert(c.wf());
                    assert(!same_suffix(q, segs, i + 1));
                    lemma_insert_off_path(c.children, segs, i + 1, f, q);
                }
            }
        } else {
            assert(lookup_in(children, q, i) == lookup_in(children.drop_first(), q, i));
            assert(lookup_in(r, q, i) == lookup_in(r.drop_first(), q, i));
        }
    } else {
        assert(r[0] == fresh_node(segs, i, f));
        assert(r.drop_first() =~= children);
        if q[i] == segs[i] {
            assert(r =~= seq![fresh_node(segs, i, f)] + children);
            assert(lookup_in(r, q, i) == if i == q.len() - 1 {
                Some(r[0])
            } else {
                lookup_in(r[0].children, q, i + 1)
            });
            assert(seq![fresh_node(segs, i, f)][0] == fresh_node(segs, i, f));
            lemma_fresh_off_path(segs, i, f, q);
        } else {
            assert(r[0].name != q[i]);
        }
    }
}

/// A fresh chain holds a node at every prefix of the inserted path.
proof fn lemma_fresh_prefix_exists(segs: Seq<Seq<char>>, i: int, f: FileInfoView, q: Seq<Seq<char>>)
    requires
        0 <= i < q.len(),
        q.len() <= segs.len(),
        forall|m: int| i <= m < q.len() ==> q[m] == segs[m],
    ensures
        lookup_in(seq![fresh_node(segs, i, f)], q, i) is Some,
    decreases q.len() - i,
{
    let c = fresh_node(segs, i, f);
    assert(seq![c][0] == c);
    assert(c.name == q[i]);
    if i < q.len() - 1 {
        assert(i < segs.len() - 1);
        lemma_fresh_prefix_exists(segs, i + 1, f, q);
    }
}

/// Right after an insertion, the tree holds a node at every prefix of the
/// inserted path.
proof fn lemma_insert_prefix_exists(
    children: Seq<TreeNodeView>,
    segs: Seq<Seq<char>>,
    i: int,
    f: FileInfoView,
    q: Seq<Seq<char>>,
)
    requires
        0 <= i < q.len(),
        q.len() <= segs.len(),
        forall|m: int| i <= m < q.len() ==> q[m] == segs[m],
    ensures
        lookup_in(insert_segs(children, segs, i, f), q, i) is Some,
    decreases q.len() - i, children.len(),
{
    let r = insert_segs(children, segs, i, f);
    if children.len() == 0 {
        lemma_fresh_prefix_exists(segs, i, f, q);
    } else if lex_lt(children[0].name, segs[i]) {
        crate::strutil::lemma_lex_lt_irrefl(children[0].name);
        let rest = insert_segs(children.drop_first(), segs, i, f);
        assert(r[0] == children[0]);
        assert(r.drop_first() =~= rest);
        lemma_insert_prefix_exists(children.drop_first(), segs, i, f, q);
    } else if children[0].name == segs[i] {
        assert(r[0].name == q[i]);
        if i < q.len() - 1 {
            assert(i < segs.len() - 1);
            lemma_insert_prefix_exists(children[0].children, segs, i + 1, f, q);
        }
    } else {
        assert(r[0] == fresh_node(segs, i, f));
        assert(fresh_node(segs, i, f).name == q[i]);
        if i < q.len() - 1 {
            assert(i < segs.len() - 1);
            lemma_fresh_prefix_exists(segs, i + 1, f, q);
            assert(lookup_in(r, q, i) == lookup_in(r[0].children, q, i + 1));
            assert(lookup_in(seq![fresh_node(segs, i, f)], q, i) == lookup_in(
                fresh_node(segs, i, f).children,
                q,
                i + 1,
            ));
        }
    }
}

/// No insertion of a path other than `p` ever puts a file at `p`.
proof fn lemma_build_no_file_at(records: Seq<FileInfoView>, p: Seq<Seq<char>>, n: int)
    requires
        p.len() > 0,
        n <= records.len(),
        forall|m: int| 0 <= m < n ==> (#[trigger] records[m]).path != p,
    ensures
        lookup_in(build_children(records, n), p, 0) matches Some(x) ==> x.file is None,
    decreases n,
{
    if n > 0 {
        lemma_build_no_file_at(records, p, n - 1);
        lemma_build_children_wf(records, n - 1);
        if !same_suffix(p, records[n - 1].path, 0) {
            lemma_insert_off_path(build_children(records, n - 1), records[n - 1].path, 0, records[n
                - 1], p);
        } else {
            lemma_same_suffix_full(p, records[n - 1].path, 0);
            assert(p =~= records[n - 1].path);
            assert(false);
        }
    }
}

proof fn lemma_build_prefix_rec(records: Seq<FileInfoView>, k: int, j: int, n: int)
    requires
        0 <= k < n <= records.len(),
        1 <= j < records[k].path.len(),
    ensures
        lookup_in(build_children(records, n), records[k].path.subrange(0, j), 0) is Some,
    decreases n,
{
    let p = records[k].path.subrange(0, j);
    if n == k + 1 {
        lemma_insert_prefix_exists(build_children(records, k), records[k].path, 0, records[k], p);
    } else {
        lemma_build_prefix_rec(records, k, j, n - 1);
        lemma_build_children_wf(records, n - 1);
        lemma_insert_preserves_node(
            build_children(records, n - 1),
            records[n - 1].path,
            0,
            records[n - 1],
            p,
        );
    }
}

/// One path is a proper prefix of another: shorter, and equal to the
/// other's first segments.
pub open spec fn is_proper_prefix(p: Seq<Seq<char>>, q: Seq<Seq<char>>) -> bool {
    p.len() < q.len() && p == q.subrange(0, p.len() as int)
}

/// No record's path is a proper prefix of another record's path.
pub open spec fn prefix_free(records: Seq<FileInfoView>) -> bool {
    forall|a: int, b: int|
        #![trigger records[a], records[b]]
        0 <= a < records.len() && 0 <= b < records.len() ==> !is_proper_prefix(
            records[a].path,
            records[b].path,
        )
}

/// Directory-node law, second half of the tree-shape invariant: when no
/// record's path is a proper prefix of another's, every strict-prefix node
/// of a recorded path exists in the built tree and has no file attached.
/// (When one path is a proper prefix of another, the shorter record makes
/// that inner node a terminal too, so the law holds only without it.)
pub proof fn lemma_build_inner_no_file(records: Seq<FileInfoView>, k: int, j: int)
    requires
        prefix_free(records),
        0 <= k < records.len(),
        1 <= j < records[k].path.len(),
    ensures
        lookup_in(build_root(records).children, records[k].path.subrange(0, j), 0) matches Some(
            node,
        ) && node.file is None,
{
    let p = records[k].path.subrange(0, j);
    assert forall|m: int| 0 <= m < records.len() implies (#[trigger] records[m]).path != p by {
        if records[m].path == p {
            assert(is_proper_prefix(records[m].path, records[k].path));
        }
    }
    lemma_build_no_file_at(records, p, records.len() as int);
    lemma_build_prefix_rec(records, k, j, records.len() as int);
}

/// Sibling ordering law: whatever the input order of the records, every
/// node of the built tree keeps its children strictly sorted by name, and
/// both renderers emit siblings in exactly that stored order.
pub proof fn lemma_build_children_wf(records: Seq<FileInfoView>, n: int)
    ensures
        siblings_wf(build_children(records, n)),
    decreases n,
{
    if n <= 0 {
        assert(siblings_wf(Seq::<TreeNodeView>::empty()));
    } else {
        lemma_build_children_wf(records, n - 1);
        lemma_insert_wf(build_children(records, n - 1), records[n - 1].path, 0, records[n - 1]);
    }
}

/// The whole built tree is well-formed.
pub proof fn lemma_build_root_wf(records: Seq<FileInfoView>)
    ensures
        build_root(records).wf(),
{
    lemma_build_children_wf(records, records.len() as int);
}

fn make_chain(segs: &Vec<String>, i: usize, rec: &FileInfo) -> (r: TreeNode)
    requires
        i < segs.len(),
    ensures
        node_view(r) == fresh_node(segs.deep_view(), i as int, rec@),
    decreases segs.len() - i,
{
    let last = i + 1 == segs.len();
    if last {
        let r = TreeNode { name: segs[i].clone(), file: Some(rec.clone()), children: Vec::new() };
        proof {
            assert(r.children@ =~= Seq::<TreeNode>::empty());
            assert(kids_view(r.children@) =~= Seq::<TreeNodeView>::empty());
        }
        r
    } else {
        let sub = make_chain(segs, i + 1, rec);
        let mut children: Vec<TreeNode> = Vec::new();
        children.push(sub);
        let r = TreeNode { name: segs[i].clone(), file: None, children };
        proof {
            assert(r.children@ =~= seq![sub] + Seq::<TreeNode>::empty());
            lemma_kids_view_cons(sub, Seq::<TreeNode>::empty());
            assert(kids_view(r.children@) =~= seq![node_view(sub)]);
        }
        r
    }
}

fn insert_segs_exec(children: Vec<TreeNode>, segs: &Vec<String>, i: usize, rec: &FileInfo) -> (r: Vec<
    TreeNode>)
    requires
        i < segs.len(),
    ensures
        kids_view(r@) == insert_segs(kids_view(children@), segs.deep_view(), i as int, rec@),
    decreases segs.len() - i, children.len(),
{
    proof {
        lemma_kids_view_len(children@);
    }
    if children.len() == 0 {
        let node = make_chain(segs, i, rec);
        let mut r: Vec<TreeNode> = Vec::new();
        r.push(node);
        proof {
            assert(kids_view(children@) =~= Seq::<TreeNodeView>::empty());
            assert(r@ =~= seq![node] + Seq::<TreeNode>::empty());
            lemma_kids_view_cons(node, Seq::<TreeNode>::empty());
            assert(kids_view(r@) =~= seq![node_view(node)]);
        }
        r
    } else {
        proof {
            lemma_kids_view_index(children@, 0);
        }
        let ghost kv = kids_view(children@);
        let ghost segs_v = segs.deep_view();
        proof {
            assert(segs_v[i as int] == segs@[i as int]@);
        }
        let first_lt = str_lt(children[0].name.as_str(), segs[i].as_str());
        let first_eq = !first_lt && children[0].name == segs[i];
        let mut children = children;
        let ghost cs0 = children@;
        let head = children.remove(0);
        let ghost tail0 = children@;
        proof {
            assert(tail0 =~= cs0.drop_first());
            assert(cs0 =~= seq![head] + tail0);
            lemma_kids_view_cons(head, tail0);
            assert(kv == seq![node_view(head)] + kids_view(tail0));
            assert(kv[0] == node_view(head));
            assert(kv.drop_first() =~= kids_view(tail0));
        }
        if first_lt {
            let rest = insert_segs_exec(children, segs, i, rec);
            let mut r = rest;
            r.insert(0, head);
            proof {
                assert(r@ =~= seq![head] + rest@);
                lemma_kids_view_cons(head, rest@);
            }
            r
        } else if first_eq {
            let last = i + 1 == segs.len();
            let TreeNode { name, file, children: hc } = head;
            let new_head = if last {
                TreeNode { name, file: Some(rec.clone()), children: hc }
            } else {
                let hc2 = insert_segs_exec(hc, segs, i + 1, rec);
                TreeNode { name, file, children: hc2 }
            };
            let mut r = children;
            r.insert(0, new_head);
            proof {
                assert(r@ =~= seq![new_head] + tail0);
                lemma_kids_view_cons(new_head, tail0);
            }
            r
        } else {
            let node = make_chain(segs, i, rec);
            let mut r = children;
            r.insert(0, head);
            r.insert(0, node);
            proof {
                assert(r@ =~= seq![node] + (seq![head] + tail0));
                lemma_kids_view_cons(node, seq![head] + tail0);
                lemma_kids_view_cons(head, tail0);
            }
            r
        }
    }
}

/// Folds every record with a non-empty path into an initially empty tree,
/// in input order; records with empty decomposed paths contribute nothing.
pub fn build_tree_root(files: &Vec<FileInfo>) -> (root: TreeNode)
    ensures
        node_view(root) == build_root(files.deep_view()),
        node_view(root).wf(),
{
    proof {
        lemma_build_root_wf(files.deep_view());
    }
    let mut children: Vec<TreeNode> = Vec::new();
    proof {
        assert(kids_view(children@) =~= build_children(files.deep_view(), 0));
    }
    let mut idx: usize = 0;
    while idx < files.len()
        invariant
            idx <= files.len(),
            kids_view(children@) == build_children(files.deep_view(), idx as int),
        decreases files.len() - idx,
    {
        let f = &files[idx];
        proof {
            assert(files.deep_view()[idx as int] == f.deep_view());
        }
        if f.path.len() > 0 {
            children = insert_segs_exec(children, &f.path, 0, f);
        } else {
            proof {
                assert(f.deep_view().path.len() == 0);
            }
        }
        idx = idx + 1;
    }
    let root = TreeNode { name: String::new(), file: None, children };
    root
}

} // verus!
