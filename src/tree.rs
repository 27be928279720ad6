//! Expanded block trees, held as arenas of nodes addressed by index, and
//! their rendering as indented markdown.
use vstd::prelude::*;
use crate::block::{Block, markdown_of};

verus! {

/// What a node of a tree holds, seen by the contracts.
pub struct NodeView {
    pub block: Block,
    pub parent: Option<usize>,
    pub children: Seq<usize>,
}

struct TreeNode {
    block: Block,
    parent: Option<usize>,
    children: Vec<usize>,
}

/// A tree of blocks. Node 0 is the root; every other node is appended after
/// its parent, so a child's index is always greater than its parent's.
pub struct Tree {
    nodes: Vec<TreeNode>,
}

impl View for Tree {
    type V = Seq<NodeView>;

    closed spec fn view(&self) -> Seq<NodeView> {
        self.nodes@.map_values(
            |n: TreeNode| NodeView { block: n.block, parent: n.parent, children: n.children@ },
        )
    }
}

/// A node sequence forms a tree rooted at index 0, each node listing its
/// children in increasing order, each child naming its parent.
pub open spec fn wf_nodes(v: Seq<NodeView>) -> bool {
    &&& v.len() >= 1
    &&& v[0].parent is None
    &&& forall|i: int|
        #![trigger v[i].parent]
        1 <= i < v.len() ==> {
            &&& v[i].parent matches Some(p)
            &&& p < i
            &&& v[p as int].children.contains(i as usize)
        }
    &&& forall|i: int, k: int|
        #![trigger v[i].children[k]]
        0 <= i < v.len() && 0 <= k < v[i].children.len() ==> {
            &&& i < v[i].children[k] < v.len()
            &&& v[v[i].children[k] as int].parent == Some(i as usize)
        }
    &&& forall|i: int, k1: int, k2: int|
        #![trigger v[i].children[k1], v[i].children[k2]]
        0 <= i < v.len() && 0 <= k1 < k2 < v[i].children.len() ==> v[i].children[k1]
            < v[i].children[k2]
}

/// `unit` repeated `depth` times.
pub open spec fn indent_of(unit: Seq<char>, depth: nat) -> Seq<char>
    decreases depth,
{
    if depth == 0 {
        Seq::empty()
    } else {
        indent_of(unit, (depth - 1) as nat) + unit
    }
}

/// The rendered line of `b` at `depth`.
pub open spec fn line_of(unit: Seq<char>, depth: nat, b: Block) -> Seq<char> {
    indent_of(unit, depth) + markdown_of(b) + seq!['\n']
}

/// The pre-order rendering of the subtree at node `i`, whose line sits at `depth`.
pub open spec fn subtree_text(v: Seq<NodeView>, i: int, unit: Seq<char>, depth: nat) -> Seq<char>
    decreases v.len() - i, v[i].children.len() + 1,
{
    if 0 <= i < v.len() {
        line_of(unit, depth, v[i].block) + children_text(
            v,
            i,
            v[i].children.len() as int,
            unit,
            depth + 1,
        )
    } else {
        Seq::empty()
    }
}

/// The renderings of the first `k` children of node `i`, one after another.
pub open spec fn children_text(v: Seq<NodeView>, i: int, k: int, unit: Seq<char>, depth: nat) -> Seq<
    char,
>
    decreases v.len() - i, k,
{
    if 0 <= i < v.len() && 0 < k <= v[i].children.len() {
        let c = v[i].children[k - 1] as int;
        children_text(v, i, k - 1, unit, depth) + if i < c < v.len() {
            subtree_text(v, c, unit, depth)
        } else {
            Seq::empty()
        }
    } else {
        Seq::empty()
    }
}

/// The rendering of a whole tree whose root line sits at `depth`.
pub open spec fn tree_text(v: Seq<NodeView>, unit: Seq<char>, depth: nat) -> Seq<char> {
    subtree_text(v, 0, unit, depth)
}

impl Tree {
    pub open spec fn wf(&self) -> bool {
        &&& wf_nodes(self@)
        &&& self@.len() <= usize::MAX
    }

    /// A tree of one node.
    pub fn new(root: Block) -> (t: Tree)
        ensures
            t@ == seq![NodeView { block: root, parent: None, children: Seq::empty() }],
            t.wf(),
    {
        let mut nodes: Vec<TreeNode> = Vec::new();
        nodes.push(TreeNode { block: root, parent: None, children: Vec::new() });
        let t = Tree { nodes };
        proof {
            assert(t@ =~= seq![NodeView { block: root, parent: None, children: Seq::empty() }]);
        }
        t
    }

    /// The number of nodes.
    pub fn len(&self) -> (n: usize)
        ensures
            n == self@.len(),
    {
        self.nodes.len()
    }

    /// Appends `block` as the last child of node `parent`; returns its index.
    pub fn add_child(&mut self, parent: usize, block: Block) -> (i: usize)
        requires
            old(self).wf(),
            parent < old(self)@.len(),
        ensures
            final(self).wf(),
            i == old(self)@.len(),
            final(self)@ == old(self)@.update(
                parent as int,
                NodeView {
                    children: old(self)@[parent as int].children.push(i),
                    ..old(self)@[parent as int]
                },
            ).push(NodeView { block: block, parent: Some(parent), children: Seq::empty() }),
    {
        let ghost v = self@;
        let i = self.nodes.len();
        let mut node = self.nodes.remove(parent);
        node.children.push(i);
        self.nodes.insert(parent, node);
        self.nodes.push(TreeNode { block, parent: Some(parent), children: Vec::new() });
        let len = self.nodes.len();
        proof {
            assert(len == i + 1);
            let w = v.update(
                parent as int,
                NodeView { children: v[parent as int].children.push(i), ..v[parent as int] },
            ).push(NodeView { block: block, parent: Some(parent), children: Seq::empty() });
            assert(self@ =~= w);
            assert forall|j: int|
                #![trigger w[j].parent]
                1 <= j < w.len() implies {
                &&& w[j].parent matches Some(p)
                &&& p < j
                &&& w[p as int].children.contains(j as usize)
            } by {
                if j < v.len() {
                    let p = v[j].parent->Some_0;
                    let k = choose|k: int|
                        0 <= k < v[p as int].children.len() && v[p as int].children[k] == j;
                    assert(w[p as int].children[k] == j);
                } else {
                    assert(w[parent as int].children.last() == i);
                }
            }
        }
        i
    }

    /// The block at node `i`.
    pub fn block(&self, i: usize) -> (b: &Block)
        requires
            i < self@.len(),
        ensures
            *b == self@[i as int].block,
    {
        &self.nodes[i].block
    }

    /// The children of node `i`, in order.
    pub fn children(&self, i: usize) -> (c: &Vec<usize>)
        requires
            i < self@.len(),
        ensures
            c@ == self@[i as int].children,
    {
        &self.nodes[i].children
    }
}

/// Appends `unit` to `out` `depth` times.
fn push_indent(out: &mut String, unit: &str, depth: usize)
    ensures
        final(out)@ == old(out)@ + indent_of(unit@, depth as nat),
{
    let mut k: usize = 0;
    while k < depth
        invariant
            k <= depth,
            out@ == old(out)@ + indent_of(unit@, k as nat),
        decreases depth - k,
    {
        out.append(unit);
        proof {
            assert(old(out)@ + indent_of(unit@, (k + 1) as nat) =~= old(out)@ + indent_of(
                unit@,
                k as nat,
            ) + unit@);
        }
        k += 1;
    }
}

impl Tree {
    /// Renders the subtree at node `i` in pre-order. The counter holds the
    /// depth of the line being written: it is incremented on the way down to
    /// a node's children and decremented on the way back up.
    fn render_node(&self, i: usize, unit: &str, depth: &mut usize, out: &mut String)
        requires
            self.wf(),
            i < self@.len(),
            *old(depth) + (self@.len() - i) <= usize::MAX + 1,
        ensures
            *final(depth) == *old(depth),
            final(out)@ == old(out)@ + subtree_text(self@, i as int, unit@, *old(depth) as nat),
        decreases self@.len() - i,
    {
        let ghost d = *depth as nat;
        let ghost v = self@;
        push_indent(out, unit, *depth);
        let line = self.nodes[i].block.to_markdown();
        out.append(line.as_str());
        proof {
            reveal_strlit("\n");
        }
        out.append("\n");
        proof {
            assert(out@ =~= old(out)@ + line_of(unit@, d, v[i as int].block));
        }
        let n = self.nodes[i].children.len();
        assert(n == v[i as int].children.len());
        if n == 0 {
            return;
        }
        assert(v[i as int].children[0] < v.len());
        *depth += 1;
        let mut k: usize = 0;
        while k < n
            invariant
                self.wf(),
                v == self@,
                i < v.len(),
                n == v[i as int].children.len(),
                k <= n,
                *depth == d + 1,
                d + (v.len() - i) <= usize::MAX + 1,
                out@ == old(out)@ + line_of(unit@, d, v[i as int].block) + children_text(
                    v,
                    i as int,
                    k as int,
                    unit@,
                    d + 1,
                ),
            decreases n - k,
        {
            let c = self.nodes[i].children[k];
            assert(c == v[i as int].children[k as int]);
            assert(i < c < v.len());
            self.render_node(c, unit, depth, out);
            proof {
                assert(children_text(v, i as int, k + 1, unit@, d + 1) == children_text(
                    v,
                    i as int,
                    k as int,
                    unit@,
                    d + 1,
                ) + subtree_text(v, c as int, unit@, d + 1));
            }
            k += 1;
        }
        *depth -= 1;
    }
}

/// Renders `tree` onto `out`, its root line at the counter's current value
/// and each level below one `unit` further in. The counter is back to its
/// starting value afterwards.
pub fn render_tree(tree: &Tree, unit: &str, depth: &mut usize, out: &mut String)
    requires
        tree.wf(),
        *old(depth) + tree@.len() <= usize::MAX + 1,
    ensures
        *final(depth) == *old(depth),
        final(out)@ == old(out)@ + tree_text(tree@, unit@, *old(depth) as nat),
{
    tree.render_node(0, unit, depth, out);
}

/// Appends the markdown of `tree` to `markdown`: one line per block in
/// pre-order, the root unindented and each level below one tab further in.
pub fn build_markdown_from_tree(tree: &Tree, markdown: &mut String)
    requires
        tree.wf(),
    ensures
        final(markdown)@ == old(markdown)@ + tree_text(tree@, seq!['\t'], 0),
{
    let mut depth: usize = 0;
    proof {
        reveal_strlit("\t");
        assert("\t"@ =~= seq!['\t']);
    }
    render_tree(tree, "\t", &mut depth, markdown);
    assert(depth == 0);
}

/// The renderings of `trees`, one after another.
pub open spec fn trees_text(trees: Seq<Tree>, unit: Seq<char>, depth: nat) -> Seq<char>
    decreases trees.len(),
{
    if trees.len() == 0 {
        Seq::empty()
    } else {
        trees_text(trees.drop_last(), unit, depth) + tree_text(trees.last()@, unit, depth)
    }
}

/// Renders `trees` one after another onto `out`, each root line at `depth`.
pub fn render_trees(trees: &Vec<Tree>, unit: &str, depth: usize, out: &mut String)
    requires
        forall|j: int|
            0 <= j < trees@.len() ==> (#[trigger] trees@[j]).wf() && depth + trees@[j]@.len()
                <= usize::MAX + 1,
    ensures
        final(out)@ == old(out)@ + trees_text(trees@, unit@, depth as nat),
{
    let mut j: usize = 0;
    while j < trees.len()
        invariant
            j <= trees@.len(),
            forall|j: int|
                0 <= j < trees@.len() ==> (#[trigger] trees@[j]).wf() && depth + trees@[j]@.len()
                    <= usize::MAX + 1,
            out@ == old(out)@ + trees_text(trees@.subrange(0, j as int), unit@, depth as nat),
        decreases trees@.len() - j,
    {
        let mut d = depth;
        render_tree(&trees[j], unit, &mut d, out);
        proof {
            assert(trees@.subrange(0, j + 1).drop_last() =~= trees@.subrange(0, j as int));
        }
        j += 1;
    }
    proof {
        assert(trees@.subrange(0, trees@.len() as int) =~= trees@);
    }
}

/// The markdown of several trees, one after another, each as
/// `build_markdown_from_tree` renders it.
pub fn build_markdown_from_trees(trees: Vec<Tree>) -> (markdown: String)
    requires
        forall|j: int| 0 <= j < trees@.len() ==> (#[trigger] trees@[j]).wf(),
    ensures
        markdown@ == trees_text(trees@, seq!['\t'], 0),
{
    let mut markdown = String::new();
    proof {
        reveal_strlit("\t");
        assert("\t"@ =~= seq!['\t']);
    }
    render_trees(&trees, "\t", 0, &mut markdown);
    proof {
        assert(markdown@ =~= trees_text(trees@, seq!['\t'], 0));
    }
    markdown
}

} // verus!
