//! Code trees: built from the byte frequencies by joining, again and
//! again, the two rarest nodes; a byte's code is the path from the root
//! to its leaf.

use vstd::prelude::*;

verus! {

/// What a node of a code tree is: a pair of subtrees, or a byte.
#[derive(PartialEq, Eq, Debug)]
pub enum NodeType {
    Internal(Box<Node>, Box<Node>),
    Leaf(u8),
}

/// A node of a code tree with the number of occurrences it stands for.
#[derive(PartialEq, Eq, Debug)]
pub struct Node {
    pub frequency: u32,
    pub node_type: NodeType,
}

impl Node {
    /// A node of the given frequency and kind.
    pub fn new(frequency: u32, node_type: NodeType) -> (node: Node)
        ensures
            node.frequency == frequency,
            node.node_type == node_type,
    {
        Node { frequency, node_type }
    }

    /// The node holds a byte.
    pub open spec fn is_leaf(self) -> bool {
        self.node_type is Leaf
    }

    /// The subtree reached by `bit`: the left one for 0, the right one
    /// for anything else. A leaf leads nowhere.
    pub open spec fn child(self, bit: u8) -> Node {
        match self.node_type {
            NodeType::Internal(left, right) => if bit == 0 {
                *left
            } else {
                *right
            },
            NodeType::Leaf(_) => self,
        }
    }

    /// Whether `byte` is at a leaf of the tree.
    pub open spec fn has_leaf(self, byte: u8) -> bool
        decreases self,
    {
        match self.node_type {
            NodeType::Internal(left, right) => left.has_leaf(byte) || right.has_leaf(byte),
            NodeType::Leaf(b) => b == byte,
        }
    }

    /// The path, 0 for left and 1 for right, to the leftmost leaf that
    /// holds `byte`; empty if there is none.
    pub open spec fn code(self, byte: u8) -> Seq<u8>
        decreases self,
    {
        match self.node_type {
            NodeType::Internal(left, right) => if left.has_leaf(byte) {
                seq![0u8] + left.code(byte)
            } else if right.has_leaf(byte) {
                seq![1u8] + right.code(byte)
            } else {
                Seq::empty()
            },
            NodeType::Leaf(_) => Seq::empty(),
        }
    }

    /// The node a path leads to.
    pub open spec fn descend(self, path: Seq<u8>) -> Node
        decreases path.len(),
    {
        if path.len() == 0 {
            self
        } else {
            self.child(path[0]).descend(path.skip(1))
        }
    }
}

/// The code of a byte in the tree leads to a leaf with that byte, through
/// inner nodes only.
pub proof fn lemma_code_leads_to_leaf(node: Node, byte: u8)
    requires
        node.has_leaf(byte),
    ensures
        node.descend(node.code(byte)).node_type == NodeType::Leaf(byte),
        forall|k: int|
            0 <= k < node.code(byte).len() ==> !(#[trigger] node.descend(
                node.code(byte).take(k),
            )).is_leaf(),
        forall|k: int| 0 <= k < node.code(byte).len() ==> #[trigger] node.code(byte)[k] <= 1,
    decreases node,
{
    let code = node.code(byte);
    match node.node_type {
        NodeType::Internal(left, right) => {
            let sub = if left.has_leaf(byte) { *left } else { *right };
            lemma_code_leads_to_leaf(sub, byte);
            assert(code.skip(1) =~= sub.code(byte));
            assert(node.child(code[0]) == sub);
            assert forall|k: int| 0 <= k < code.len() implies !(#[trigger] node.descend(
                code.take(k),
            )).is_leaf() by {
                let path = code.take(k);
                if k > 0 {
                    assert(path.skip(1) =~= sub.code(byte).take(k - 1));
                    assert(path[0] == code[0]);
                    assert(node.descend(path) == sub.descend(path.skip(1)));
                } else {
                    assert(node.descend(path) == node);
                }
            }
        },
        NodeType::Leaf(_) => {},
    }
}

/// The leaves a coder starts from: one per byte value, in order, with
/// the byte's frequency.
pub open spec fn leaf_forest(frequencies: Seq<u32>) -> Seq<Node> {
    Seq::new(
        256,
        |i: int| Node { frequency: frequencies[i], node_type: NodeType::Leaf(i as u8) },
    )
}

/// Index of the first node of least frequency among the first `n`.
pub open spec fn first_min(forest: Seq<Node>, n: int) -> int
    decreases n,
{
    if n <= 1 {
        0
    } else {
        let m = first_min(forest, n - 1);
        if forest[n - 1].frequency < forest[m].frequency {
            n - 1
        } else {
            m
        }
    }
}

/// The forest after its two rarest nodes, the earlier of equals first,
/// have been taken out and their join added at the end.
pub open spec fn joined(forest: Seq<Node>) -> Seq<Node> {
    let i = first_min(forest, forest.len() as int);
    let rest = forest.remove(i);
    let j = first_min(rest, rest.len() as int);
    rest.remove(j).push(
        Node {
            frequency: (forest[i].frequency + rest[j].frequency) as u32,
            node_type: NodeType::Internal(Box::new(forest[i]), Box::new(rest[j])),
        },
    )
}

/// The forest joined until a single tree is left.
pub open spec fn joined_fully(forest: Seq<Node>) -> Seq<Node>
    decreases forest.len(),
{
    if forest.len() <= 1 {
        forest
    } else {
        proof {
            lemma_first_min_bounds(forest, forest.len() as int);
            let rest = forest.remove(first_min(forest, forest.len() as int));
            lemma_first_min_bounds(rest, rest.len() as int);
        }
        joined_fully(joined(forest))
    }
}

/// Sum of the weights `w` of the first `n` nodes.
pub open spec fn weighed(forest: Seq<Node>, n: int, w: spec_fn(Node) -> int) -> int
    decreases n,
{
    if n <= 0 {
        0
    } else {
        weighed(forest, n - 1, w) + w(forest[n - 1])
    }
}

/// The frequency of a node, as a weight.
pub open spec fn by_frequency() -> spec_fn(Node) -> int {
    |node: Node| node.frequency as int
}

/// Sum of the frequencies of the first `n` nodes.
pub open spec fn total(forest: Seq<Node>, n: int) -> int {
    weighed(forest, n, by_frequency())
}

/// The first minimum is an index of the forest.
pub proof fn lemma_first_min_bounds(forest: Seq<Node>, n: int)
    requires
        1 <= n <= forest.len(),
    ensures
        0 <= first_min(forest, n) < n,
    decreases n,
{
    if n > 1 {
        lemma_first_min_bounds(forest, n - 1);
    }
}

/// A sum of weights that are never negative is not negative.
pub proof fn lemma_weighed_nonnegative(forest: Seq<Node>, n: int, w: spec_fn(Node) -> int)
    requires
        forall|node: Node| 0 <= #[trigger] w(node),
    ensures
        0 <= weighed(forest, n, w),
    decreases n,
{
    if n > 0 {
        lemma_weighed_nonnegative(forest, n - 1, w);
    }
}

/// Taking a node out lowers the sum by its weight.
pub proof fn lemma_weighed_remove(forest: Seq<Node>, i: int, w: spec_fn(Node) -> int)
    requires
        0 <= i < forest.len(),
    ensures
        weighed(forest.remove(i), forest.len() - 1, w) == weighed(forest, forest.len() as int, w)
            - w(forest[i]),
{
    lemma_weighed_remove_upto(forest, i, forest.len() as int, w);
}

/// Taking a node out lowers the sum over the places up to `n` by its
/// weight.
pub proof fn lemma_weighed_remove_upto(forest: Seq<Node>, i: int, n: int, w: spec_fn(Node) -> int)
    requires
        0 <= i < n <= forest.len(),
    ensures
        weighed(forest.remove(i), n - 1, w) == weighed(forest, n, w) - w(forest[i]),
    decreases n,
{
    let rest = forest.remove(i);
    if n - 1 > i {
        lemma_weighed_remove_upto(forest, i, n - 1, w);
        assert(rest[n - 2] == forest[n - 1]);
    } else {
        lemma_weighed_same_prefix(forest, rest, i, w);
    }
}

/// Forests that start with the same nodes weigh the same over them.
pub proof fn lemma_weighed_same_prefix(a: Seq<Node>, b: Seq<Node>, n: int, w: spec_fn(Node) -> int)
    requires
        0 <= n <= a.len(),
        n <= b.len(),
        forall|k: int| 0 <= k < n ==> a[k] == b[k],
    ensures
        weighed(a, n, w) == weighed(b, n, w),
    decreases n,
{
    if n > 0 {
        lemma_weighed_same_prefix(a, b, n - 1, w);
    }
}

/// Adding a node raises the sum by its weight.
pub proof fn lemma_weighed_push(forest: Seq<Node>, node: Node, w: spec_fn(Node) -> int)
    ensures
        weighed(forest.push(node), forest.len() as int + 1, w) == weighed(
            forest,
            forest.len() as int,
            w,
        ) + w(node),
{
    lemma_weighed_same_prefix(forest, forest.push(node), forest.len() as int, w);
}

/// Takes the first node of least frequency out of `heap`.
pub fn pop_min(heap: &mut Vec<Node>) -> (node: Node)
    requires
        old(heap)@.len() >= 1,
    ensures
        node == old(heap)@[first_min(old(heap)@, old(heap)@.len() as int)],
        final(heap)@ == old(heap)@.remove(first_min(old(heap)@, old(heap)@.len() as int)),
{
    let mut best: usize = 0;
    let mut i: usize = 1;
    while i < heap.len()
        invariant
            1 <= i <= heap@.len(),
            best == first_min(heap@, i as int),
            best < i,
        decreases heap@.len() - i,
    {
        if heap[i].frequency < heap[best].frequency {
            best = i;
        }
        i += 1;
    }
    heap.remove(best)
}

/// Joins the nodes of `heap` into one tree.
pub fn build_tree(heap: &mut Vec<Node>)
    requires
        total(old(heap)@, old(heap)@.len() as int) <= u32::MAX,
    ensures
        final(heap)@ == joined_fully(old(heap)@),
        old(heap)@.len() >= 1 ==> final(heap)@.len() == 1,
{
    while heap.len() > 1
        invariant
            total(heap@, heap@.len() as int) <= u32::MAX,
            joined_fully(heap@) == joined_fully(old(heap)@),
            old(heap)@.len() >= 1 ==> heap@.len() >= 1,
        decreases heap@.len(),
    {
        let ghost forest = heap@;
        let ghost i = first_min(forest, forest.len() as int);
        let ghost rest = forest.remove(i);
        let ghost j = first_min(rest, rest.len() as int);
        proof {
            lemma_first_min_bounds(forest, forest.len() as int);
            lemma_first_min_bounds(rest, rest.len() as int);
            lemma_weighed_remove(forest, i, by_frequency());
            lemma_weighed_remove(rest, j, by_frequency());
            lemma_weighed_nonnegative(rest.remove(j), rest.len() - 1, by_frequency());
        }
        let left_child = pop_min(heap);
        let right_child = pop_min(heap);
        let node = Node::new(
            left_child.frequency + right_child.frequency,
            NodeType::Internal(Box::new(left_child), Box::new(right_child)),
        );
        proof {
            lemma_weighed_push(rest.remove(j), node, by_frequency());
        }
        heap.push(node);
        assert(heap@ =~= joined(forest));
    }
}

/// The codes after those of the tree `node`, each behind `prefix`, have
/// been written over `codes`, left subtree first.
pub open spec fn with_codes(node: Node, prefix: Seq<u8>, codes: Seq<Seq<u8>>) -> Seq<Seq<u8>>
    decreases node,
{
    match node.node_type {
        NodeType::Internal(left, right) => with_codes(
            *right,
            prefix.push(1),
            with_codes(*left, prefix.push(0), codes),
        ),
        NodeType::Leaf(byte) => codes.update(byte as int, prefix),
    }
}

/// Writing codes leaves the table as long as it was.
pub proof fn lemma_with_codes_len(node: Node, prefix: Seq<u8>, codes: Seq<Seq<u8>>)
    requires
        codes.len() == 256,
    ensures
        with_codes(node, prefix, codes).len() == codes.len(),
    decreases node,
{
    match node.node_type {
        NodeType::Internal(left, right) => {
            let half = with_codes(*left, prefix.push(0), codes);
            lemma_with_codes_len(*left, prefix.push(0), codes);
            lemma_with_codes_len(*right, prefix.push(1), half);
            assert(with_codes(node, prefix, codes) == with_codes(*right, prefix.push(1), half));
        },
        NodeType::Leaf(_) => {},
    }
}

/// Writes into `codes`, at each byte of the tree, the path to its leaf
/// behind `prefix`.
pub fn gen_codes(node: &Node, prefix: Vec<u8>, codes: &mut Vec<Vec<u8>>)
    requires
        old(codes)@.len() == 256,
    ensures
        final(codes)@.len() == 256,
        final(codes)@.map_values(|c: Vec<u8>| c@) =~= with_codes(
            *node,
            prefix@,
            old(codes)@.map_values(|c: Vec<u8>| c@),
        ),
    decreases node,
{
    match &node.node_type {
        NodeType::Internal(left_child, right_child) => {
            let mut left_prefix = prefix.clone();
            left_prefix.push(0);
            gen_codes(left_child, left_prefix, codes);
            let mut right_prefix = prefix;
            right_prefix.push(1);
            gen_codes(right_child, right_prefix, codes);
        },
        NodeType::Leaf(byte) => {
            codes[*byte as usize] = prefix;
        },
    }
}

} // verus!
