//! Rendering: the drawing of the tree, the contents, and the whole artifact.
use crate::config::texts;
use crate::scanner::{views, Entry, EntryView};
use vstd::prelude::*;

verus! {

/// The segments of a path: the texts between its `/`.
pub open spec fn segments(path: Seq<char>) -> Seq<Seq<char>>
    decreases path.len(),
{
    if path.len() == 0 {
        seq![Seq::empty()]
    } else {
        let before = segments(path.drop_last());
        if path.last() == '/' {
            before.push(Seq::empty())
        } else {
            before.drop_last().push(before.last().push(path.last()))
        }
    }
}

/// How many leading segments two paths share.
pub open spec fn common_len(a: Seq<Seq<char>>, b: Seq<Seq<char>>) -> nat
    decreases a.len(),
{
    if a.len() == 0 || b.len() == 0 || a[0] != b[0] {
        0
    } else {
        1 + common_len(a.drop_first(), b.drop_first())
    }
}

/// One line of the tree: a directory or a file, at its depth below the root.
#[derive(Clone, Debug)]
pub struct TreeNode {
    pub depth: usize,
    pub name: String,
    pub is_dir: bool,
}

/// A node as a plain value.
pub ghost struct NodeView {
    pub depth: nat,
    pub name: Seq<char>,
    pub is_dir: bool,
}

impl View for TreeNode {
    type V = NodeView;

    open spec fn view(&self) -> NodeView {
        NodeView { depth: self.depth as nat, name: self.name@, is_dir: self.is_dir }
    }
}

/// The nodes of a list as plain values.
pub open spec fn node_views(nodes: Seq<TreeNode>) -> Seq<NodeView> {
    Seq::new(nodes.len(), |i: int| nodes[i]@)
}

/// The depth of the first node that an entry adds to the tree, given the
/// segments of the entry before it: the directories that the two share are
/// drawn already; the entry itself is always drawn.
pub open spec fn first_new(previous: Seq<Seq<char>>, current: Seq<Seq<char>>) -> nat {
    let shared = common_len(previous, current);
    if shared < current.len() - 1 {
        shared
    } else {
        (current.len() - 1) as nat
    }
}

/// The nodes that an entry adds: its directories that were not drawn for
/// the entry before it, from the outermost in, and then the entry itself. A
/// node's depth is the number of segments above it.
pub open spec fn entry_nodes(previous: Seq<Seq<char>>, current: Seq<Seq<char>>, is_dir: bool) -> Seq<
    NodeView,
> {
    let start = first_new(previous, current);
    Seq::new(
        (current.len() - start) as nat,
        |i: int|
            NodeView {
                depth: (start + i) as nat,
                name: current[start + i],
                is_dir: start + i < current.len() - 1 || is_dir,
            },
    )
}

/// The segments of the entry before the one at `at`; none before the first.
pub open spec fn previous_segments(entries: Seq<EntryView>, at: int) -> Seq<Seq<char>> {
    if at >= 1 {
        segments(entries[at - 1].path)
    } else {
        Seq::empty()
    }
}

/// The nodes of the tree, line by line: those of each entry in turn.
pub open spec fn tree_nodes(entries: Seq<EntryView>) -> Seq<NodeView>
    decreases entries.len(),
{
    if entries.len() == 0 {
        Seq::empty()
    } else {
        tree_nodes(entries.drop_last()) + entry_nodes(
            previous_segments(entries, entries.len() - 1),
            segments(entries.last().path),
            entries.last().is_dir,
        )
    }
}

/// The index of the first node from `from` on whose depth is at most
/// `level`, or the number of nodes if there is none.
pub open spec fn next_at_most(nodes: Seq<NodeView>, from: int, level: nat) -> int
    decreases nodes.len() - from,
{
    if from < 0 || from >= nodes.len() {
        nodes.len() as int
    } else if nodes[from].depth <= level {
        from
    } else {
        next_at_most(nodes, from + 1, level)
    }
}

/// Whether, below the node at `at`, the directory that holds the nodes of
/// depth `level` has another node to come: the next node that is not deeper
/// than `level` lies at `level`.
pub open spec fn continues(nodes: Seq<NodeView>, at: int, level: nat) -> bool {
    let next = next_at_most(nodes, at + 1, level);
    next < nodes.len() && nodes[next].depth == level
}

/// The guide columns of a line: one for each of the first `levels` levels, a
/// bar where that level continues below and blanks where it does not.
pub open spec fn guides(nodes: Seq<NodeView>, at: int, levels: nat) -> Seq<char>
    decreases levels,
{
    if levels == 0 {
        Seq::empty()
    } else {
        guides(nodes, at, (levels - 1) as nat) + (if continues(nodes, at, (levels - 1) as nat) {
            "│   "@
        } else {
            "    "@
        })
    }
}

/// The line of the node at `at`: guides, the branch marker (the last-branch
/// marker where its directory has no further node), the name, and `/`
/// behind a directory.
pub open spec fn node_line(nodes: Seq<NodeView>, at: int) -> Seq<char> {
    guides(nodes, at, nodes[at].depth) + (if continues(nodes, at, nodes[at].depth) {
        "├── "@
    } else {
        "└── "@
    }) + nodes[at].name + (if nodes[at].is_dir {
        "/"@
    } else {
        Seq::empty()
    })
}

/// The lines of the tree.
pub open spec fn tree_lines(nodes: Seq<NodeView>) -> Seq<Seq<char>> {
    Seq::new(nodes.len(), |i: int| node_line(nodes, i))
}

/// Lines joined by line feeds, with none behind the last.
pub open spec fn join_lines(lines: Seq<Seq<char>>) -> Seq<char>
    decreases lines.len(),
{
    if lines.len() == 0 {
        Seq::empty()
    } else if lines.len() == 1 {
        lines[0]
    } else {
        join_lines(lines.drop_last()) + "\n"@ + lines.last()
    }
}

/// The drawing of the tree of a list of entries.
pub open spec fn tree_text(entries: Seq<EntryView>) -> Seq<char> {
    join_lines(tree_lines(tree_nodes(entries)))
}

/// A line is indented by four characters for each level above its node, so
/// a node's indentation tells its depth.
pub proof fn lemma_guides_len(nodes: Seq<NodeView>, at: int, levels: nat)
    ensures
        guides(nodes, at, levels).len() == 4 * levels,
    decreases levels,
{
    reveal_strlit("│   ");
    reveal_strlit("    ");
    if levels > 0 {
        lemma_guides_len(nodes, at, (levels - 1) as nat);
    }
}

/// The number of `/` in a path.
pub open spec fn slash_count(path: Seq<char>) -> nat
    decreases path.len(),
{
    if path.len() == 0 {
        0
    } else {
        slash_count(path.drop_last()) + (if path.last() == '/' {
            1nat
        } else {
            0nat
        })
    }
}

/// A path has one segment more than it has `/`.
pub proof fn lemma_segments_len(path: Seq<char>)
    ensures
        segments(path).len() == slash_count(path) + 1,
    decreases path.len(),
{
    if path.len() > 0 {
        lemma_segments_len(path.drop_last());
    }
}

/// Within the shared start two paths have the same segments.
pub proof fn lemma_common_len(a: Seq<Seq<char>>, b: Seq<Seq<char>>, at: int)
    requires
        0 <= at < common_len(a, b),
    ensures
        at < a.len(),
        at < b.len(),
        a[at] == b[at],
    decreases a.len(),
{
    if at > 0 {
        lemma_common_len(a.drop_first(), b.drop_first(), at - 1);
    }
}

/// The list of nodes holds one of the given depth and name.
pub open spec fn draws(nodes: Seq<NodeView>, depth: nat, name: Seq<char>) -> bool {
    exists|k: int|
        0 <= k < nodes.len() && (#[trigger] nodes[k]).depth == depth && nodes[k].name == name
}

/// The tree of a longer list of entries starts with the tree of the shorter.
pub proof fn lemma_tree_nodes_grow(entries: Seq<EntryView>, upto: int)
    requires
        0 <= upto <= entries.len(),
    ensures
        tree_nodes(entries.take(upto)).len() <= tree_nodes(entries).len(),
        tree_nodes(entries.take(upto)) == tree_nodes(entries).take(
            tree_nodes(entries.take(upto)).len() as int,
        ),
    decreases entries.len(),
{
    if upto == entries.len() {
        assert(entries.take(upto) =~= entries);
        assert(tree_nodes(entries).take(tree_nodes(entries).len() as int) =~= tree_nodes(entries));
    } else {
        lemma_tree_nodes_grow(entries.drop_last(), upto);
        assert(entries.drop_last().take(upto) =~= entries.take(upto));
        let shorter = tree_nodes(entries.take(upto));
        assert(shorter =~= tree_nodes(entries).take(shorter.len() as int));
    }
}

/// Every segment of every entry's path is drawn at its depth: the entry
/// itself at the depth of its path, which is the number of its `/`, and
/// each directory above it, whether or not a pattern matched that directory.
pub proof fn lemma_path_is_drawn(entries: Seq<EntryView>, at: int, depth: int)
    requires
        0 <= at < entries.len(),
        0 <= depth <= slash_count(entries[at].path),
    ensures
        depth < segments(entries[at].path).len(),
        draws(tree_nodes(entries), depth as nat, segments(entries[at].path)[depth]),
    decreases entries.len(),
{
    let path = entries[at].path;
    let parts = segments(path);
    lemma_segments_len(path);
    let shorter = entries.drop_last();
    let nodes = tree_nodes(entries);
    let last = entries.len() - 1;
    let previous = previous_segments(entries, last);
    if at < last {
        assert(shorter[at] == entries[at]);
        lemma_path_is_drawn(shorter, at, depth);
        let k = choose|k: int|
            0 <= k < tree_nodes(shorter).len() && (#[trigger] tree_nodes(shorter)[k]).depth
                == depth as nat && tree_nodes(shorter)[k].name == parts[depth];
        assert(nodes[k] == tree_nodes(shorter)[k]);
    } else {
        let start = first_new(previous, parts);
        let added = entry_nodes(previous, parts, entries[at].is_dir);
        if depth >= start {
            let k = tree_nodes(shorter).len() + (depth - start);
            assert(nodes[k] == added[depth - start]);
        } else {
            lemma_common_len(previous, parts, depth);
            assert(at >= 1);
            assert(shorter[at - 1] == entries[at - 1]);
            lemma_segments_len(entries[at - 1].path);
            lemma_path_is_drawn(shorter, at - 1, depth);
            let k = choose|k: int|
                0 <= k < tree_nodes(shorter).len() && (#[trigger] tree_nodes(shorter)[k]).depth
                    == depth as nat && tree_nodes(shorter)[k].name == parts[depth];
            assert(nodes[k] == tree_nodes(shorter)[k]);
        }
    }
}

/// Nothing is drawn but segments of the entries' paths: each node is a
/// segment of some entry's path, at that segment's depth, and a node that
/// is not the entry itself is drawn as a directory.
pub proof fn lemma_node_is_of_entry(entries: Seq<EntryView>, k: int)
    requires
        0 <= k < tree_nodes(entries).len(),
    ensures
        exists|at: int|
            0 <= at < entries.len() && node_of_entry(tree_nodes(entries)[k], #[trigger] entries[at]),
    decreases entries.len(),
{
    let shorter = entries.drop_last();
    let last = entries.len() - 1;
    if k < tree_nodes(shorter).len() {
        lemma_node_is_of_entry(shorter, k);
        let at = choose|at: int|
            0 <= at < shorter.len() && node_of_entry(tree_nodes(shorter)[k], #[trigger] shorter[at]);
        assert(shorter[at] == entries[at]);
        assert(node_of_entry(tree_nodes(entries)[k], entries[at]));
    } else {
        let previous = previous_segments(entries, last);
        let parts = segments(entries[last].path);
        let added = entry_nodes(previous, parts, entries[last].is_dir);
        assert(tree_nodes(entries)[k] == added[k - tree_nodes(shorter).len()]);
        assert(node_of_entry(tree_nodes(entries)[k], entries[last]));
    }
}

/// The node is a segment of the entry's path, at that segment's depth: the
/// entry itself, or a directory above it.
pub open spec fn node_of_entry(node: NodeView, entry: EntryView) -> bool {
    let parts = segments(entry.path);
    &&& node.depth < parts.len()
    &&& node.name == parts[node.depth as int]
    &&& if node.depth == parts.len() - 1 {
        node.is_dir == entry.is_dir
    } else {
        node.is_dir
    }
}

/// Splits a path at its `/`.
pub fn split_segments(path: &str) -> (parts: Vec<String>)
    ensures
        texts(parts@) == segments(path@),
        parts.len() >= 1,
{
    let n = path.unicode_len();
    let mut parts: Vec<String> = Vec::new();
    let mut start: usize = 0;
    let mut i: usize = 0;
    assert(path@.take(0) =~= Seq::<char>::empty());
    assert(texts(parts@).push(path@.subrange(0, 0)) =~= seq![Seq::<char>::empty()]);
    while i < n
        invariant
            n == path@.len(),
            start <= i <= n,
            segments(path@.take(i as int)) == texts(parts@).push(
                path@.subrange(start as int, i as int),
            ),
        decreases n - i,
    {
        let ghost before = texts(parts@);
        let ghost open_part = path@.subrange(start as int, i as int);
        proof {
            assert(path@.take(i as int + 1).drop_last() =~= path@.take(i as int));
            assert(path@.take(i as int + 1).last() == path@[i as int]);
            assert(before.push(open_part).drop_last() =~= before);
            assert(before.push(open_part).last() == open_part);
        }
        let c = path.get_char(i);
        if c == '/' {
            let part = String::from_str(path.substring_char(start, i));
            parts.push(part);
            start = i + 1;
            assert(texts(parts@) =~= before.push(open_part));
            assert(path@.subrange(start as int, i as int + 1) =~= Seq::<char>::empty());
        } else {
            assert(path@.subrange(start as int, i as int + 1) =~= open_part.push(path@[i as int]));
        }
        i += 1;
    }
    let ghost before = texts(parts@);
    let part = String::from_str(path.substring_char(start, n));
    parts.push(part);
    proof {
        assert(path@.take(n as int) =~= path@);
        assert(texts(parts@) =~= before.push(path@.subrange(start as int, n as int)));
    }
    parts
}

/// Counts the leading segments that two paths share.
pub fn shared_segments(a: &Vec<String>, b: &Vec<String>) -> (shared: usize)
    ensures
        shared == common_len(texts(a@), texts(b@)),
        shared <= a.len(),
        shared <= b.len(),
{
    let mut i: usize = 0;
    assert(texts(a@).skip(0) =~= texts(a@));
    assert(texts(b@).skip(0) =~= texts(b@));
    while i < a.len() && i < b.len() && a[i] == b[i]
        invariant
            i <= a.len(),
            i <= b.len(),
            common_len(texts(a@), texts(b@)) == i + common_len(
                texts(a@).skip(i as int),
                texts(b@).skip(i as int),
            ),
        decreases a.len() - i,
    {
        proof {
            assert(texts(a@).skip(i as int)[0] == a@[i as int]@);
            assert(texts(b@).skip(i as int)[0] == b@[i as int]@);
            assert(texts(a@).skip(i as int).drop_first() =~= texts(a@).skip(i as int + 1));
            assert(texts(b@).skip(i as int).drop_first() =~= texts(b@).skip(i as int + 1));
        }
        i += 1;
    }
    proof {
        if i < a.len() && i < b.len() {
            assert(texts(a@).skip(i as int)[0] == a@[i as int]@);
            assert(texts(b@).skip(i as int)[0] == b@[i as int]@);
        }
    }
    i
}

/// Appends to `nodes` the nodes that one entry adds to the tree.
fn push_entry_nodes(nodes: &mut Vec<TreeNode>, previous: &Vec<String>, current: &Vec<String>, is_dir: bool)
    requires
        current.len() >= 1,
    ensures
        node_views(final(nodes)@) == node_views(old(nodes)@) + entry_nodes(
            texts(previous@),
            texts(current@),
            is_dir,
        ),
{
    let shared = shared_segments(previous, current);
    let leaf: usize = current.len() - 1;
    let start: usize = if shared < leaf {
        shared
    } else {
        leaf
    };
    let ghost wanted = entry_nodes(texts(previous@), texts(current@), is_dir);
    let mut depth: usize = start;
    assert(wanted.take(0) =~= Seq::<NodeView>::empty());
    assert(node_views(nodes@) + Seq::<NodeView>::empty() =~= node_views(nodes@));
    while depth < current.len()
        invariant
            start <= depth <= current.len(),
            leaf == current.len() - 1,
            start == first_new(texts(previous@), texts(current@)),
            wanted == entry_nodes(texts(previous@), texts(current@), is_dir),
            node_views(nodes@) == node_views(old(nodes)@) + wanted.take(depth - start),
        decreases current.len() - depth,
    {
        let ghost before = node_views(nodes@);
        let node = TreeNode {
            depth,
            name: current[depth].clone(),
            is_dir: depth < leaf || is_dir,
        };
        nodes.push(node);
        proof {
            assert(node@ == wanted[depth - start]);
            assert(node_views(nodes@) =~= before.push(wanted[depth - start]));
            assert(wanted.take(depth - start + 1) =~= wanted.take(depth - start).push(
                wanted[depth - start],
            ));
            assert(node_views(nodes@) =~= node_views(old(nodes)@) + wanted.take(depth - start + 1));
        }
        depth += 1;
    }
    assert(wanted.take(current.len() - start) =~= wanted);
}

/// Builds the nodes of the tree from the entries.
pub fn build_nodes(entries: &Vec<Entry>) -> (nodes: Vec<TreeNode>)
    ensures
        node_views(nodes@) == tree_nodes(views(entries@)),
{
    let mut nodes: Vec<TreeNode> = Vec::new();
    let mut previous: Vec<String> = Vec::new();
    let mut i: usize = 0;
    let ghost all = views(entries@);
    assert(all.take(0) =~= Seq::<EntryView>::empty());
    assert(node_views(nodes@) =~= Seq::<NodeView>::empty());
    assert(texts(previous@) =~= Seq::<Seq<char>>::empty());
    while i < entries.len()
        invariant
            i <= entries.len(),
            all == views(entries@),
            node_views(nodes@) == tree_nodes(all.take(i as int)),
            texts(previous@) == previous_segments(all, i as int),
        decreases entries.len() - i,
    {
        let current = split_segments(entries[i].path.as_str());
        proof {
            let upto = all.take(i as int + 1);
            assert(upto.drop_last() =~= all.take(i as int));
            assert(upto.last() == all[i as int]);
            assert(previous_segments(upto, upto.len() - 1) == previous_segments(all, i as int)) by {
                if i >= 1 {
                    assert(upto[i as int - 1] == all[i as int - 1]);
                }
            }
        }
        push_entry_nodes(&mut nodes, &previous, &current, entries[i].is_dir);
        previous = current;
        i += 1;
    }
    assert(all.take(entries.len() as int) =~= all);
    nodes
}

/// Finds the first node from `from` on that is not deeper than `level`.
fn find_at_most(nodes: &Vec<TreeNode>, from: usize, level: usize) -> (next: usize)
    ensures
        next == next_at_most(node_views(nodes@), from as int, level as nat),
        next <= nodes.len(),
{
    let mut j: usize = from;
    while j < nodes.len() && nodes[j].depth > level
        invariant
            next_at_most(node_views(nodes@), from as int, level as nat) == next_at_most(
                node_views(nodes@),
                j as int,
                level as nat,
            ),
        decreases nodes.len() - j,
    {
        assert(node_views(nodes@)[j as int].depth == nodes@[j as int].depth);
        j += 1;
    }
    proof {
        if j < nodes.len() {
            assert(node_views(nodes@)[j as int].depth == nodes@[j as int].depth);
        }
    }
    if j < nodes.len() {
        j
    } else {
        nodes.len()
    }
}

/// Whether the level `level` has another node to come below the node at `at`.
fn level_continues(nodes: &Vec<TreeNode>, at: usize, level: usize) -> (more: bool)
    requires
        at < nodes.len(),
    ensures
        more == continues(node_views(nodes@), at as int, level as nat),
{
    let next = find_at_most(nodes, at + 1, level);
    if next < nodes.len() {
        assert(node_views(nodes@)[next as int].depth == nodes@[next as int].depth);
        nodes[next].depth == level
    } else {
        false
    }
}

/// Renders the line of the node at `at`.
pub fn render_line(nodes: &Vec<TreeNode>, at: usize) -> (line: String)
    requires
        at < nodes.len(),
    ensures
        line@ == node_line(node_views(nodes@), at as int),
{
    let ghost all = node_views(nodes@);
    let mut line = String::new();
    let depth = nodes[at].depth;
    assert(all[at as int] == nodes@[at as int]@);
    let mut level: usize = 0;
    while level < depth
        invariant
            level <= depth,
            at < nodes.len(),
            all == node_views(nodes@),
            line@ == guides(all, at as int, level as nat),
        decreases depth - level,
    {
        if level_continues(nodes, at, level) {
            line.append("│   ");
        } else {
            line.append("    ");
        }
        level += 1;
    }
    if level_continues(nodes, at, depth) {
        line.append("├── ");
    } else {
        line.append("└── ");
    }
    line.append(nodes[at].name.as_str());
    if nodes[at].is_dir {
        line.append("/");
    } else {
        assert(line@ + Seq::<char>::empty() =~= line@);
    }
    line
}

/// Joins lines by line feeds.
pub fn join(lines: &Vec<String>) -> (text: String)
    ensures
        text@ == join_lines(texts(lines@)),
{
    let mut text = String::new();
    let mut i: usize = 0;
    let ghost all = texts(lines@);
    assert(all.take(0) =~= Seq::<Seq<char>>::empty());
    while i < lines.len()
        invariant
            i <= lines.len(),
            all == texts(lines@),
            text@ == join_lines(all.take(i as int)),
        decreases lines.len() - i,
    {
        proof {
            assert(all.take(i as int + 1).drop_last() =~= all.take(i as int));
            assert(all.take(i as int + 1).last() == lines@[i as int]@);
            assert(all.take(i as int + 1)[0] == all[0]);
        }
        if i > 0 {
            text.append("\n");
        } else {
            assert(text@ + lines@[0]@ =~= lines@[0]@);
        }
        text.append(lines[i].as_str());
        i += 1;
    }
    assert(all.take(lines.len() as int) =~= all);
    text
}

/// The block of one file in the contents: a header with the path, the
/// file's text, and a closing line.
pub open spec fn file_block(path: Seq<char>, body: Seq<char>) -> Seq<char> {
    "<file path=\""@ + path + "\">\n"@ + body + "\n</file>\n"@
}

/// The text of the file at `at`, where one was handed in.
pub open spec fn body_at(bodies: Seq<Option<String>>, at: int) -> Option<Seq<char>> {
    if 0 <= at < bodies.len() {
        match bodies[at] {
            Some(body) => Some(body@),
            None => None,
        }
    } else {
        None
    }
}

/// The contents: in the entries' order, the block of each entry whose
/// contents are wanted and whose text was handed in.
pub open spec fn content_text(entries: Seq<EntryView>, bodies: Seq<Option<String>>) -> Seq<char>
    decreases entries.len(),
{
    if entries.len() == 0 {
        Seq::empty()
    } else {
        let at = entries.len() - 1;
        let before = content_text(entries.drop_last(), bodies);
        if entries[at].include_content && body_at(bodies, at).is_some() {
            before + file_block(entries[at].path, body_at(bodies, at).unwrap())
        } else {
            before
        }
    }
}

/// The whole artifact: the tree between its tags, then the contents.
pub open spec fn full_output(tree: Seq<char>, content: Seq<char>) -> Seq<char> {
    "<directory_structure>\n"@ + tree + "\n</directory_structure>\n"@ + content
}

/// The tree between its tags, with nothing behind.
pub open spec fn tree_only_output(tree: Seq<char>) -> Seq<char> {
    "<directory_structure>\n"@ + tree + "\n</directory_structure>"@
}

/// The rendering functions. They read nothing but their arguments.
pub struct OutputGenerator {}

impl OutputGenerator {
    /// Draws the tree of the entries: one line for each entry and for each
    /// directory above an entry, in the entries' order, a directory before
    /// what it holds.
    pub fn generate_tree(entries: &Vec<Entry>) -> (tree: String)
        ensures
            tree@ == tree_text(views(entries@)),
    {
        let nodes = build_nodes(entries);
        let mut lines: Vec<String> = Vec::new();
        let mut i: usize = 0;
        let ghost wanted = tree_lines(node_views(nodes@));
        assert(texts(lines@) =~= wanted.take(0));
        while i < nodes.len()
            invariant
                i <= nodes.len(),
                wanted == tree_lines(node_views(nodes@)),
                texts(lines@) == wanted.take(i as int),
            decreases nodes.len() - i,
        {
            let ghost before = texts(lines@);
            let line = render_line(&nodes, i);
            lines.push(line);
            proof {
                assert(texts(lines@) =~= before.push(wanted[i as int]));
                assert(wanted.take(i as int + 1) =~= wanted.take(i as int).push(wanted[i as int]));
            }
            i += 1;
        }
        assert(wanted.take(nodes.len() as int) =~= wanted);
        join(&lines)
    }

    /// Renders the contents. `bodies[i]` is the text of the file of
    /// `entries[i]`, or `None` where it could not be read as text; such a
    /// file is left out, and so is one that `bodies` is too short for.
    pub fn generate_content(entries: &Vec<Entry>, bodies: &Vec<Option<String>>) -> (content: String)
        ensures
            content@ == content_text(views(entries@), bodies@),
    {
        let mut content = String::new();
        let mut i: usize = 0;
        let ghost all = views(entries@);
        assert(all.take(0) =~= Seq::<EntryView>::empty());
        while i < entries.len()
            invariant
                i <= entries.len(),
                all == views(entries@),
                content@ == content_text(all.take(i as int), bodies@),
            decreases entries.len() - i,
        {
            proof {
                assert(all.take(i as int + 1).drop_last() =~= all.take(i as int));
                assert(all.take(i as int + 1)[i as int] == entries@[i as int]@);
            }
            if entries[i].include_content && i < bodies.len() {
                if let Some(body) = &bodies[i] {
                    content.append("<file path=\"");
                    content.append(entries[i].path.as_str());
                    content.append("\">\n");
                    content.append(body.as_str());
                    content.append("\n</file>\n");
                    assert(content@ =~= content_text(all.take(i as int), bodies@) + file_block(
                        entries@[i as int].path@,
                        body@,
                    ));
                }
            }
            i += 1;
        }
        assert(all.take(entries.len() as int) =~= all);
        content
    }

    /// Composes the artifact of a tree and the contents.
    pub fn format_full_output(tree: &str, content: &str) -> (output: String)
        ensures
            output@ == full_output(tree@, content@),
    {
        let mut output = String::from_str("<directory_structure>\n");
        output.append(tree);
        output.append("\n</directory_structure>\n");
        output.append(content);
        output
    }

    /// Wraps a tree in its tags, for an artifact without contents.
    pub fn format_tree_only(tree: &str) -> (output: String)
        ensures
            output@ == tree_only_output(tree@),
    {
        let mut output = String::from_str("<directory_structure>\n");
        output.append(tree);
        output.append("\n</directory_structure>");
        output
    }
}

} // verus!
