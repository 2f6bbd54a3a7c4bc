//! The document serializer. It walks the built tree in its stored sorted
//! order and emits one XML document: a header, a verbatim instructions
//! block, the escaped and reindented tree view, one `file` element per node
//! that carries a file record, and a trailer. Only tree-view lines are
//! escaped; instructions and file content are embedded verbatim inside
//! literal CDATA blocks, so a terminator sequence occurring in them is
//! passed through unchanged.

use vstd::prelude::*;
use crate::fileinfo::{FileInfo, FileInfoView};
use crate::render::{child_indent, connector, display_name, render_children, spec_tree_view, tree_entry};
use crate::strutil::{dec_digits, push_char, u64_to_string};
use crate::tree::{build_root, kids_view, lemma_kids_view_index, lemma_kids_view_len, node_view, TreeNode,
    TreeNodeView};

verus! {

/// What one source character contributes to escaped text: the five XML
/// metacharacters become entities, every other character stands unchanged.
pub open spec fn escape_char(c: char) -> Seq<char> {
    if c == '&' {
        "&amp;"@
    } else if c == '<' {
        "&lt;"@
    } else if c == '>' {
        "&gt;"@
    } else if c == '"' {
        "&quot;"@
    } else if c == '\'' {
        "&apos;"@
    } else {
        seq![c]
    }
}

/// Escaped text: each source character escaped once, in order.
pub open spec fn escape_seq(s: Seq<char>) -> Seq<char>
    decreases s.len(),
{
    if s.len() == 0 {
        Seq::empty()
    } else {
        escape_char(s[0]) + escape_seq(s.drop_first())
    }
}

proof fn lemma_escape_push(s: Seq<char>, c: char)
    ensures
        escape_seq(s.push(c)) == escape_seq(s) + escape_char(c),
    decreases s.len(),
{
    if s.len() == 0 {
        assert(s.push(c)[0] == c);
        assert(s.push(c).drop_first() =~= Seq::<char>::empty());
        assert(escape_seq(Seq::<char>::empty()) =~= Seq::<char>::empty());
        assert(escape_seq(s.push(c)) =~= escape_char(c));
        assert(escape_seq(s) + escape_char(c) =~= escape_char(c));
    } else {
        assert(s.push(c).drop_first() =~= s.drop_first().push(c));
        lemma_escape_push(s.drop_first(), c);
        assert(escape_char(s[0]) + (escape_seq(s.drop_first()) + escape_char(c)) =~= (escape_char(
            s[0],
        ) + escape_seq(s.drop_first())) + escape_char(c));
    }
}

/// ASCII lowercasing of one character, as applied to file extensions.
pub open spec fn lower_char(c: char) -> char {
    if 'A' <= c && c <= 'Z' {
        ((c as u8) + 32) as char
    } else {
        c
    }
}

pub open spec fn lower_seq(s: Seq<char>) -> Seq<char> {
    Seq::new(s.len(), |i: int| lower_char(s[i]))
}

/// The start of a name's extension: the largest index of a `.` that is not
/// the leading character, or zero when the name has no such dot.
pub open spec fn ext_start(s: Seq<char>) -> int
    decreases s.len(),
{
    if s.len() <= 1 {
        0
    } else if s[s.len() - 1] == '.' {
        s.len() - 1
    } else {
        ext_start(s.drop_last())
    }
}

/// The type label of a file name: the lowercased extension after the last
/// dot, or the generic label when the name has no extension.
pub open spec fn file_type_of(name: Seq<char>) -> Seq<char> {
    if ext_start(name) > 0 {
        lower_seq(name.subrange(ext_start(name) + 1, name.len() as int))
    } else {
        "text"@
    }
}

/// The type label of a whole path: that of its final segment.
pub open spec fn path_file_type(path: Seq<Seq<char>>) -> Seq<char> {
    if path.len() == 0 {
        "text"@
    } else {
        file_type_of(path[path.len() - 1])
    }
}

/// A path's display form: its segments joined by `/`.
pub open spec fn join_path(path: Seq<Seq<char>>) -> Seq<char>
    decreases path.len(),
{
    if path.len() == 0 {
        Seq::empty()
    } else if path.len() == 1 {
        path[0]
    } else {
        path[0] + seq!['/'] + join_path(path.drop_first())
    }
}

pub open spec fn bool_text(b: bool) -> Seq<char> {
    if b {
        "true"@
    } else {
        "false"@
    }
}

/// Two spaces per indentation level.
pub open spec fn sp_indent(depth: nat) -> Seq<char>
    decreases depth,
{
    if depth == 0 {
        Seq::empty()
    } else {
        sp_indent((depth - 1) as nat) + "  "@
    }
}

/// The `content` element of a file block, present exactly when content was
/// captured: its completeness and type attributes, and the content verbatim
/// inside a CDATA block.
pub open spec fn content_block(f: FileInfoView, ind: Seq<char>) -> Seq<char> {
    match f.content {
        Some(text) => ind + "  <content complete=\""@ + bool_text(f.is_content_complete)
            + "\" type=\""@ + path_file_type(f.path) + "\">\n"@ + ind + "    <![CDATA[\n"@ + text
            + "\n"@ + ind + "    ]]>\n"@ + ind + "  </content>\n"@,
        None => Seq::empty(),
    }
}

/// One `file` element: display path, size, and the content block, if any.
pub open spec fn file_block(f: FileInfoView, ind: Seq<char>) -> Seq<char> {
    ind + "<file>\n"@ + (ind + "  <path>"@ + join_path(f.path) + "</path>\n"@) + (ind + "  <size>"@
        + dec_digits(f.size as nat) + "</size>\n"@) + content_block(f, ind) + ind + "</file>\n"@
}

/// The file blocks of the first `i` children of a sibling list, in order.
pub open spec fn xml_blocks_upto(children: Seq<TreeNodeView>, depth: nat, i: int) -> Seq<char>
    decreases children, i,
{
    if i <= 0 || i > children.len() {
        Seq::empty()
    } else {
        xml_blocks_upto(children, depth, i - 1) + xml_node(children[i - 1], depth)
    }
}

/// The file blocks of a subtree in sorted depth-first order: a block for
/// this node exactly when it carries a file, then its children's blocks.
/// Directory nodes contribute no block of their own.
pub open spec fn xml_node(t: TreeNodeView, depth: nat) -> Seq<char>
    decreases t, 0int,
{
    (match t.file {
        Some(f) => file_block(f, sp_indent(depth)),
        None => Seq::empty(),
    }) + xml_blocks_upto(t.children, depth, t.children.len() as int)
}

/// The escaped, reindented tree-view section: for each of the first `i`
/// children, four spaces, the child's escaped tree-view line, a newline,
/// then its subtree's lines. Each source line is escaped exactly once.
pub open spec fn xml_tree_lines(children: Seq<TreeNodeView>, prefix: Seq<char>, i: int) -> Seq<char>
    decreases children, i,
{
    if i <= 0 || i > children.len() {
        Seq::empty()
    } else {
        let c = children[i - 1];
        let is_last = i == children.len();
        xml_tree_lines(children, prefix, i - 1) + "    "@ + escape_seq(
            prefix + connector(is_last) + display_name(c),
        ) + "\n"@ + xml_tree_lines(c.children, prefix + child_indent(is_last), c.children.len() as int)
    }
}

/// The whole document generated for a record list and an instructions text:
/// header, verbatim instructions, escaped tree view, the file blocks of the
/// tree built from the records, and the trailer.
pub open spec fn spec_generate(records: Seq<FileInfoView>, instructions: Seq<char>) -> Seq<char> {
    let root = build_root(records);
    "<?xml version=\"1.0\" encoding=\"UTF-8\"?>\n<files>\n"@ + ("  <instructions>\n    <![CDATA[\n"@
        + instructions + "\n    ]]>\n  </instructions>\n\n"@) + ("  <tree_view>\n"@ + xml_tree_lines(
        root.children,
        Seq::empty(),
        root.children.len() as int,
    ) + "  </tree_view>\n\n"@) + xml_node(root, 1) + "</files>"@
}

/// Directory-node law: a node without a file contributes no `file` element
/// of its own — its subtree's serialization is exactly its children's
/// serialization, in order.
pub proof fn lemma_dir_node_no_file_block(t: TreeNodeView, depth: nat)
    requires
        t.file is None,
    ensures
        xml_node(t, depth) == xml_blocks_upto(t.children, depth, t.children.len() as int),
{
    assert(xml_node(t, depth) =~= xml_blocks_upto(t.children, depth, t.children.len() as int));
}

/// A character that escaping rewrites.
spec fn is_markup_char(c: char) -> bool {
    c == '&' || c == '<' || c == '>' || c == '"' || c == '\''
}

proof fn lemma_escape_char_shape(c: char)
    ensures
        escape_char(c).len() >= 1,
        is_markup_char(c) ==> escape_char(c).len() >= 4 && escape_char(c)[0] == '&',
        !is_markup_char(c) ==> escape_char(c) == seq![c],
{
    reveal_strlit("&amp;");
    reveal_strlit("&lt;");
    reveal_strlit("&gt;");
    reveal_strlit("&quot;");
    reveal_strlit("&apos;");
}

/// Round-trip law: escaping loses nothing. Two texts with the same escaped
/// form are the same text, so the escaped tree-view lines determine their
/// source lines.
#[verifier::rlimit(60)]
pub proof fn lemma_escape_injective(s1: Seq<char>, s2: Seq<char>)
    requires
        escape_seq(s1) == escape_seq(s2),
    ensures
        s1 == s2,
    decreases s1.len(),
{
    reveal_strlit("&amp;");
    reveal_strlit("&lt;");
    reveal_strlit("&gt;");
    reveal_strlit("&quot;");
    reveal_strlit("&apos;");
    if s1.len() == 0 && s2.len() == 0 {
        assert(s1 =~= s2);
    } else if s1.len() == 0 {
        lemma_escape_char_shape(s2[0]);
        assert(escape_seq(s1).len() == 0);
        assert(escape_seq(s2).len() >= 1);
    } else if s2.len() == 0 {
        lemma_escape_char_shape(s1[0]);
        assert(escape_seq(s2).len() == 0);
        assert(escape_seq(s1).len() >= 1);
    } else {
        let c1 = s1[0];
        let c2 = s2[0];
        let e1 = escape_char(c1);
        let e2 = escape_char(c2);
        let r1 = escape_seq(s1.drop_first());
        let r2 = escape_seq(s2.drop_first());
        assert(escape_seq(s1) == e1 + r1);
        assert(escape_seq(s2) == e2 + r2);
        lemma_escape_char_shape(c1);
        lemma_escape_char_shape(c2);
        if c1 != c2 {
            assert((e1 + r1)[0] == (e2 + r2)[0]);
            if is_markup_char(c1) && is_markup_char(c2) {
                assert((e1 + r1)[1] == (e2 + r2)[1]);
                assert((e1 + r1)[2] == (e2 + r2)[2]);
                assert(false);
            } else if is_markup_char(c1) {
                assert((e2 + r2)[0] == c2);
                assert((e1 + r1)[0] == '&');
                assert(false);
            } else if is_markup_char(c2) {
                assert((e1 + r1)[0] == c1);
                assert((e2 + r2)[0] == '&');
                assert(false);
            } else {
                assert((e1 + r1)[0] == c1);
                assert((e2 + r2)[0] == c2);
                assert(false);
            }
        }
        assert(e1 == e2);
        assert((e1 + r1).len() == (e2 + r2).len());
        assert(r1.len() == r2.len());
        assert forall|k: int| 0 <= k < r1.len() implies r1[k] == r2[k] by {
            assert((e1 + r1)[e1.len() + k] == (e2 + r2)[e2.len() + k]);
        }
        assert(r1 =~= r2);
        lemma_escape_injective(s1.drop_first(), s2.drop_first());
        assert forall|i: int| 0 <= i < s1.len() implies s1[i] == s2[i] by {
            if i > 0 {
                assert(s1.drop_first()[i - 1] == s2.drop_first()[i - 1]);
                assert(s1.drop_first()[i - 1] == s1[i]);
                assert(s2.drop_first()[i - 1] == s2[i]);
            }
        }
        assert(s1 =~= s2);
    }
}

/// Escaping law: the tree-view section escapes each rendered line exactly
/// once — what the document holds for a child is the four-space reindent,
/// one application of `escape_seq` to the raw connector line, and a
/// newline, followed by the child's own subtree, and nothing more.
pub proof fn lemma_tree_line_escaped_once(children: Seq<TreeNodeView>, prefix: Seq<char>, i: int)
    requires
        1 <= i <= children.len(),
    ensures
        xml_tree_lines(children, prefix, i) == xml_tree_lines(children, prefix, i - 1) + "    "@
            + escape_seq(prefix + connector(i == children.len()) + display_name(children[i - 1]))
            + "\n"@ + xml_tree_lines(
            children[i - 1].children,
            prefix + child_indent(i == children.len()),
            children[i - 1].children.len() as int,
        ),
{
}

proof fn lemma_ext_start_pos(s: Seq<char>, j: int)
    requires
        1 <= j < s.len(),
        s[j] == '.',
        forall|m: int| j < m < s.len() ==> s[m] != '.',
    ensures
        ext_start(s) == j,
    decreases s.len(),
{
    if j < s.len() - 1 {
        assert(s.drop_last()[j] == s[j]);
        lemma_ext_start_pos(s.drop_last(), j);
    }
}

proof fn lemma_ext_start_none(s: Seq<char>)
    requires
        forall|m: int| 1 <= m < s.len() ==> s[m] != '.',
    ensures
        ext_start(s) == 0,
    decreases s.len(),
{
    if s.len() > 1 {
        lemma_ext_start_none(s.drop_last());
    }
}

fn lower_char_exec(c: char) -> (r: char)
    ensures
        r == lower_char(c),
{
    if 'A' <= c && c <= 'Z' {
        let b = (c as u8) + 32;
        b as char
    } else {
        c
    }
}

proof fn lemma_join_path_push(p: Seq<Seq<char>>, s: Seq<char>)
    ensures
        join_path(p.push(s)) == if p.len() == 0 {
            s
        } else {
            join_path(p) + seq!['/'] + s
        },
    decreases p.len(),
{
    if p.len() == 0 {
        assert(p.push(s)[0] == s);
    } else {
        assert(p.push(s).drop_first() =~= p.drop_first().push(s));
        lemma_join_path_push(p.drop_first(), s);
        if p.len() == 1 {
            assert(p.push(s)[0] == p[0]);
        } else {
            assert((p[0] + seq!['/'] + join_path(p.drop_first())) + seq!['/'] + s =~= p[0]
                + seq!['/'] + (join_path(p.drop_first()) + seq!['/'] + s));
        }
    }
}

/// The XML generator: builds the tree once and serializes it.
pub struct XmlGenerator;

impl XmlGenerator {
    /// Escapes one piece of text for the tree-view section: `&` becomes
    /// `&amp;`, `<` `&lt;`, `>` `&gt;`, `"` `&quot;` and `'` `&apos;`.
    pub fn escape_xml(text: &str) -> (r: String)
        ensures
            r@ == escape_seq(text@),
    {
        let len = text.unicode_len();
        let mut r = String::new();
        let mut i: usize = 0;
        proof {
            assert(text@.subrange(0, 0) =~= Seq::<char>::empty());
        }
        while i < len
            invariant
                len == text@.len(),
                i <= len,
                r@ == escape_seq(text@.subrange(0, i as int)),
            decreases len - i,
        {
            let c = text.get_char(i);
            if c == '&' {
                r.append("&amp;");
            } else if c == '<' {
                r.append("&lt;");
            } else if c == '>' {
                r.append("&gt;");
            } else if c == '"' {
                r.append("&quot;");
            } else if c == '\'' {
                r.append("&apos;");
            } else {
                push_char(&mut r, c);
            }
            proof {
                assert(text@.subrange(0, i as int).push(c) =~= text@.subrange(0, i as int + 1));
                lemma_escape_push(text@.subrange(0, i as int), c);
                assert(r@ =~= escape_seq(text@.subrange(0, i as int + 1)));
            }
            i = i + 1;
        }
        proof {
            assert(text@.subrange(0, len as int) =~= text@);
        }
        r
    }

    /// The type label of a file path: the lowercased extension of its final
    /// segment, or `text` when that segment has no extension.
    pub fn detect_file_type(path: &Vec<String>) -> (r: String)
        ensures
            r@ == path_file_type(path.deep_view()),
    {
        if path.len() == 0 {
            let r = String::from_str("text");
            return r;
        }
        let name: &String = &path[path.len() - 1];
        proof {
            assert(path.deep_view()[path@.len() - 1] == name@);
        }
        let nstr = name.as_str();
        let len = nstr.unicode_len();
        let mut m: usize = 1;
        let mut dot: usize = 0;
        while m < len
            invariant
                nstr@ == name@,
                len == name@.len(),
                1 <= m || len == 0,
                m <= len || len <= 1,
                dot == 0 ==> forall|j: int| 1 <= j < m ==> name@[j] != '.',
                dot > 0 ==> 1 <= dot < m && m <= len && name@[dot as int] == '.' && (forall|j: int|
                    dot < j < m ==> name@[j] != '.'),
            decreases len - m,
        {
            if nstr.get_char(m) == '.' {
                dot = m;
            }
            m = m + 1;
        }
        if dot == 0 {
            proof {
                lemma_ext_start_none(name@);
            }
            let r = String::from_str("text");
            r
        } else {
            proof {
                lemma_ext_start_pos(name@, dot as int);
            }
            let mut t = String::new();
            let mut q: usize = dot + 1;
            proof {
                assert(t@ =~= lower_seq(name@.subrange(dot as int + 1, dot as int + 1)));
            }
            while q < len
                invariant
                    nstr@ == name@,
                    len == name@.len(),
                    dot < q,
                    q <= len,
                    t@ == lower_seq(name@.subrange(dot as int + 1, q as int)),
                decreases len - q,
            {
                let c = nstr.get_char(q);
                let lc = lower_char_exec(c);
                push_char(&mut t, lc);
                proof {
                    assert(t@ =~= lower_seq(name@.subrange(dot as int + 1, q as int + 1)));
                }
                q = q + 1;
            }
            t
        }
    }
}

fn make_indent(depth: usize) -> (r: String)
    ensures
        r@ == sp_indent(depth as nat),
{
    let mut r = String::new();
    let mut i: usize = 0;
    proof {
        assert(r@ =~= sp_indent(0));
    }
    while i < depth
        invariant
            i <= depth,
            r@ == sp_indent(i as nat),
        decreases depth - i,
    {
        r.append("  ");
        i = i + 1;
    }
    r
}

fn append_content_block(xml: &mut String, fi: &FileInfo, indent: &String)
    ensures
        final(xml)@ == old(xml)@ + content_block(fi@, indent@),
{
    match &fi.content {
        Some(content) => {
            xml.append(indent.as_str());
            xml.append("  <content complete=\"");
            if fi.is_content_complete {
                xml.append("true");
            } else {
                xml.append("false");
            }
            xml.append("\" type=\"");
            let t = XmlGenerator::detect_file_type(&fi.path);
            xml.append(t.as_str());
            xml.append("\">\n");
            xml.append(indent.as_str());
            xml.append("    <![CDATA[\n");
            xml.append(content.as_str());
            xml.append("\n");
            xml.append(indent.as_str());
            xml.append("    ]]>\n");
            xml.append(indent.as_str());
            xml.append("  </content>\n");
            proof {
                assert(xml@ =~= old(xml)@ + content_block(fi@, indent@));
            }
        },
        None => {
            proof {
                assert(old(xml)@ + content_block(fi@, indent@) =~= old(xml)@);
            }
        },
    }
}

fn append_file_block(xml: &mut String, fi: &FileInfo, indent: &String)
    ensures
        final(xml)@ == old(xml)@ + file_block(fi@, indent@),
{
    xml.append(indent.as_str());
    xml.append("<file>\n");
    xml.append(indent.as_str());
    xml.append("  <path>");
    let p = join_path_exec(&fi.path);
    xml.append(p.as_str());
    xml.append("</path>\n");
    proof {
        assert(xml@ =~= old(xml)@ + indent@ + "<file>\n"@ + (indent@ + "  <path>"@ + join_path(
            fi@.path,
        ) + "</path>\n"@));
    }
    let ghost mid = xml@;
    xml.append(indent.as_str());
    xml.append("  <size>");
    let sz = u64_to_string(fi.size);
    xml.append(sz.as_str());
    xml.append("</size>\n");
    proof {
        assert(xml@ =~= mid + (indent@ + "  <size>"@ + dec_digits(fi@.size as nat) + "</size>\n"@));
    }
    append_content_block(xml, fi, indent);
    xml.append(indent.as_str());
    xml.append("</file>\n");
    proof {
        assert(xml@ =~= old(xml)@ + file_block(fi@, indent@));
    }
}

fn join_path_exec(path: &Vec<String>) -> (r: String)
    ensures
        r@ == join_path(path.deep_view()),
{
    let mut r = String::new();
    let mut i: usize = 0;
    proof {
        assert(path.deep_view().subrange(0, 0) =~= Seq::<Seq<char>>::empty());
    }
    while i < path.len()
        invariant
            i <= path.len(),
            r@ == join_path(path.deep_view().subrange(0, i as int)),
        decreases path.len() - i,
    {
        if i > 0 {
            push_char(&mut r, '/');
        }
        r.append(path[i].as_str());
        proof {
            let pv = path.deep_view();
            assert(pv.subrange(0, i as int).push(pv[i as int]) =~= pv.subrange(0, i as int + 1));
            lemma_join_path_push(pv.subrange(0, i as int), pv[i as int]);
            assert(pv[i as int] == path@[i as int]@);
            assert(r@ =~= join_path(pv.subrange(0, i as int + 1)));
        }
        i = i + 1;
    }
    proof {
        assert(path.deep_view().subrange(0, path@.len() as int) =~= path.deep_view());
    }
    r
}

#[verifier::rlimit(60)]
fn tree_lines_into(node: &TreeNode, prefix: &str, out: &mut String)
    ensures
        final(out)@ == old(out)@ + xml_tree_lines(node@.children, prefix@, node@.children.len() as int),
    decreases node,
{
    proof {
        lemma_kids_view_len(node.children@);
    }
    let n = node.children.len();
    let mut i: usize = 0;
    while i < n
        invariant
            n == node.children@.len(),
            node@.children.len() == n,
            node@.children == kids_view(node.children@),
            i <= n,
            out@ == old(out)@ + xml_tree_lines(node@.children, prefix@, i as int),
        decreases n - i,
    {
        let child = &node.children[i];
        let is_last = i + 1 == n;
        let mut line = prefix.to_owned();
        if is_last {
            line.append("└── ");
        } else {
            line.append("├── ");
        }
        line.append(child.name.as_str());
        match &child.file {
            Some(_) => {},
            None => {
                push_char(&mut line, '/');
            },
        }
        proof {
            lemma_kids_view_index(node.children@, i as int);
            assert(node@.children[i as int] == node_view(*child));
            reveal_strlit("/");
            assert("/"@ =~= seq!['/']);
            assert(line@ =~= prefix@ + connector(is_last) + display_name(node@.children[i as int]));
        }
        let esc = XmlGenerator::escape_xml(line.as_str());
        out.append("    ");
        out.append(esc.as_str());
        out.append("\n");
        let mut next_prefix = prefix.to_owned();
        if is_last {
            next_prefix.append("    ");
        } else {
            next_prefix.append("│   ");
        }
        tree_lines_into(child, next_prefix.as_str(), out);
        proof {
            assert(out@ =~= old(out)@ + xml_tree_lines(node@.children, prefix@, i as int + 1));
        }
        i = i + 1;
    }
}

impl XmlGenerator {
    /// Builds the prefix tree for a record list; children sorted by name.
    pub fn build_tree(files: &Vec<FileInfo>) -> (root: TreeNode)
        ensures
            root@ == build_root(files.deep_view()),
            root@.wf(),
    {
        crate::tree::build_tree_root(files)
    }

    /// Appends the label line, if one is given, then the tree-view lines of
    /// all of the node's children: each child's line carries the given
    /// prefix and a connector, and the child's own subtree is rendered by a
    /// recursive call whose label is that full line.
    #[verifier::rlimit(60)]
    pub fn generate_tree_view_recursive(node: &TreeNode, prefix: &str, label: &str, result: &mut String)
        ensures
            final(result)@ == old(result)@ + tree_entry(node@, prefix@, label@),
        decreases node,
    {
        if !label.is_empty() {
            result.append(label);
            push_char(result, '\n');
        }
        proof {
            lemma_kids_view_len(node.children@);
            assert(result@ =~= old(result)@ + (if label@.len() == 0 {
                Seq::<char>::empty()
            } else {
                label@ + seq!['\n']
            }));
        }
        let ghost base = result@;
        let n = node.children.len();
        let mut i: usize = 0;
        while i < n
            invariant
                n == node.children@.len(),
                node@.children.len() == n,
                node@.children == kids_view(node.children@),
                i <= n,
                result@ == base + render_children(node@.children, prefix@, i as int),
            decreases n - i,
        {
            let child = &node.children[i];
            let is_last = i + 1 == n;
            let mut line = prefix.to_owned();
            if is_last {
                line.append("└── ");
            } else {
                line.append("├── ");
            }
            line.append(child.name.as_str());
            match &child.file {
                Some(_) => {},
                None => {
                    push_char(&mut line, '/');
                },
            }
            let mut next_prefix = prefix.to_owned();
            if is_last {
                next_prefix.append("    ");
            } else {
                next_prefix.append("│   ");
            }
            proof {
                lemma_kids_view_index(node.children@, i as int);
                assert(node@.children[i as int] == node_view(*child));
                reveal_strlit("/");
                assert("/"@ =~= seq!['/']);
                assert(line@ =~= prefix@ + connector(is_last) + display_name(
                    node@.children[i as int],
                ));
                reveal_strlit("└── ");
                reveal_strlit("├── ");
                assert(line@.len() > 0);
            }
            Self::generate_tree_view_recursive(child, next_prefix.as_str(), line.as_str(), result);
            proof {
                assert(result@ =~= base + render_children(node@.children, prefix@, i as int + 1));
            }
            i = i + 1;
        }
    }

    /// The whole ASCII tree view; the synthetic root produces no line.
    pub fn generate_tree_view(node: &TreeNode) -> (r: String)
        ensures
            r@ == spec_tree_view(node@),
    {
        let mut result = String::new();
        Self::generate_tree_view_recursive(node, "", "", &mut result);
        proof {
            reveal_strlit("");
            assert(""@ =~= Seq::<char>::empty());
            assert(result@ =~= spec_tree_view(node@));
        }
        result
    }

    /// Appends the `file` elements of the subtree in sorted depth-first
    /// order: one block per node that carries a file, none for directory
    /// nodes, all at the given indentation depth.
    pub fn generate_xml_from_tree(node: &TreeNode, xml: &mut String, depth: usize)
        ensures
            final(xml)@ == old(xml)@ + xml_node(node@, depth as nat),
        decreases node,
    {
        let indent = make_indent(depth);
        match &node.file {
            Some(fi) => {
                append_file_block(xml, fi, &indent);
                proof {
                    assert(node@.file == Some(fi@));
                }
            },
            None => {},
        }
        proof {
            lemma_kids_view_len(node.children@);
        }
        let ghost base = xml@;
        let ghost own = match node@.file {
            Some(f) => file_block(f, sp_indent(depth as nat)),
            None => Seq::<char>::empty(),
        };
        proof {
            assert(base == old(xml)@ + own || (node@.file is None && base == old(xml)@));
        }
        let n = node.children.len();
        let mut i: usize = 0;
        while i < n
            invariant
                n == node.children@.len(),
                node@.children.len() == n,
                node@.children == kids_view(node.children@),
                i <= n,
                xml@ == base + xml_blocks_upto(node@.children, depth as nat, i as int),
            decreases n - i,
        {
            let child = &node.children[i];
            Self::generate_xml_from_tree(child, xml, depth);
            proof {
                lemma_kids_view_index(node.children@, i as int);
                assert(node@.children[i as int] == node_view(*child));
                assert(xml@ =~= base + xml_blocks_upto(node@.children, depth as nat, i as int + 1));
            }
            i = i + 1;
        }
        proof {
            assert(xml@ =~= old(xml)@ + xml_node(node@, depth as nat));
        }
    }

    /// Generates the whole document for a record list and an instructions
    /// text: header, verbatim instructions block, escaped tree view, one
    /// `file` element per recorded file in sorted order, and the trailer.
    pub fn generate(files: &Vec<FileInfo>, instructions: &str) -> (r: String)
        ensures
            r@ == spec_generate(files.deep_view(), instructions@),
    {
        let root = Self::build_tree(files);
        let mut xml = String::from_str("<?xml version=\"1.0\" encoding=\"UTF-8\"?>\n<files>\n");
        xml.append("  <instructions>\n    <![CDATA[\n");
        xml.append(instructions);
        xml.append("\n    ]]>\n  </instructions>\n\n");
        xml.append("  <tree_view>\n");
        tree_lines_into(&root, "", &mut xml);
        xml.append("  </tree_view>\n\n");
        Self::generate_xml_from_tree(&root, &mut xml, 1);
        xml.append("</files>");
        proof {
            reveal_strlit("");
            assert(""@ =~= Seq::<char>::empty());
            assert(xml@ =~= spec_generate(files.deep_view(), instructions@));
        }
        xml
    }
}

} // verus!
