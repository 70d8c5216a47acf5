//! Decision trees: nodes with ordered children, and queries over them.
use vstd::prelude::*;
use vstd::string::*;
use crate::float_bits::{f64_lt, lt_bits};

verus! {

/// A node of a decision tree. `confidence` holds an `f64` bit pattern.
#[derive(Debug)]
pub struct DecisionNode {
    pub decision: String,
    pub confidence: u64,
    pub children: Vec<DecisionNode>,
}

/// A decision tree, given by its root.
#[derive(Debug)]
pub struct DecisionTree {
    pub root: DecisionNode,
}

/// The mathematical value of a decision node: its text, its confidence
/// pattern and the values of its children, in order.
pub struct NodeModel {
    pub decision: Seq<char>,
    pub confidence: u64,
    pub children: Seq<NodeModel>,
}

/// The value of a node.
pub open spec fn node_view(n: DecisionNode) -> NodeModel
    decreases n,
{
    NodeModel {
        decision: n.decision@,
        confidence: n.confidence,
        children: nodes_view(n.children@),
    }
}

/// The values of a sequence of nodes.
pub open spec fn nodes_view(s: Seq<DecisionNode>) -> Seq<NodeModel>
    decreases s,
{
    if s.len() == 0 {
        Seq::empty()
    } else {
        nodes_view(s.subrange(0, s.len() - 1)).push(node_view(s[s.len() - 1]))
    }
}

impl View for DecisionNode {
    type V = NodeModel;

    open spec fn view(&self) -> NodeModel {
        node_view(*self)
    }
}

impl View for DecisionTree {
    type V = NodeModel;

    open spec fn view(&self) -> NodeModel {
        node_view(self.root)
    }
}

/// The values of a sequence of node references.
pub open spec fn refs_view(s: Seq<&DecisionNode>) -> Seq<NodeModel> {
    s.map_values(|r: &DecisionNode| node_view(*r))
}


/// `c` attached at the end of the last-child spine of `m`: follow the last
/// child from `m` down to a node without children, and give that node `c` as
/// its only child.
pub open spec fn spine_append(m: NodeModel, c: NodeModel) -> NodeModel
    decreases m,
{
    if m.children.len() == 0 {
        NodeModel { children: seq![c], ..m }
    } else {
        let l = m.children.len() - 1;
        NodeModel { children: m.children.update(l, spine_append(m.children[l], c)), ..m }
    }
}

/// Appending a node to a list appends its value to the list's value.
pub proof fn lemma_nodes_view_push(s: Seq<DecisionNode>, x: DecisionNode)
    ensures
        nodes_view(s.push(x)) == nodes_view(s).push(node_view(x)),
{
    assert(s.push(x).subrange(0, s.len() as int) =~= s);
}

/// The value of a list of nodes is the list of their values.
pub proof fn lemma_nodes_view(s: Seq<DecisionNode>)
    ensures
        nodes_view(s).len() == s.len(),
        forall|i: int| 0 <= i < s.len() ==> #[trigger] nodes_view(s)[i] == node_view(s[i]),
    decreases s.len(),
{
    if s.len() > 0 {
        lemma_nodes_view(s.subrange(0, s.len() - 1));
    }
}

/// The number of levels of the tree below and including `m`.
pub open spec fn depth(m: NodeModel) -> nat
    decreases m,
{
    1 + max_depth(m.children)
}

/// The largest depth among the nodes of `s` (zero when `s` is empty).
pub open spec fn max_depth(s: Seq<NodeModel>) -> nat
    decreases s,
{
    if s.len() == 0 {
        0
    } else {
        let a = max_depth(s.subrange(0, s.len() - 1));
        let b = depth(s[s.len() - 1]);
        if a >= b { a } else { b }
    }
}

/// The number of nodes of the tree rooted at `m`.
pub open spec fn count(m: NodeModel) -> nat
    decreases m,
{
    1 + count_all(m.children)
}

/// The number of nodes of all trees in `s`.
pub open spec fn count_all(s: Seq<NodeModel>) -> nat
    decreases s,
{
    if s.len() == 0 {
        0
    } else {
        count_all(s.subrange(0, s.len() - 1)) + count(s[s.len() - 1])
    }
}

/// The first node in preorder (a node before its children, children in
/// order) whose decision is `target`.
pub open spec fn find_model(m: NodeModel, target: Seq<char>) -> Option<NodeModel>
    decreases m,
{
    if m.decision == target {
        Some(m)
    } else {
        find_in_all(m.children, target)
    }
}

/// The first preorder match of `target` among the trees of `s`, in order.
pub open spec fn find_in_all(s: Seq<NodeModel>, target: Seq<char>) -> Option<NodeModel>
    decreases s,
{
    if s.len() == 0 {
        None
    } else {
        match find_in_all(s.subrange(0, s.len() - 1), target) {
            Some(found) => Some(found),
            None => find_model(s[s.len() - 1], target),
        }
    }
}

/// The nodes from `m` down to the first preorder match of `target`, if any.
pub open spec fn path_model(m: NodeModel, target: Seq<char>) -> Option<Seq<NodeModel>>
    decreases m,
{
    if m.decision == target {
        Some(seq![m])
    } else {
        match path_in_all(m.children, target) {
            Some(p) => Some(seq![m] + p),
            None => None,
        }
    }
}

/// The path to the first preorder match of `target` among the trees of `s`.
pub open spec fn path_in_all(s: Seq<NodeModel>, target: Seq<char>) -> Option<Seq<NodeModel>>
    decreases s,
{
    if s.len() == 0 {
        None
    } else {
        match path_in_all(s.subrange(0, s.len() - 1), target) {
            Some(p) => Some(p),
            None => path_model(s[s.len() - 1], target),
        }
    }
}

/// The index of the child that `Iterator::max_by` on confidence picks:
/// scanning left to right, a later child replaces the current best unless it
/// is strictly below it, so the last of several maxima wins.
pub open spec fn best_index(s: Seq<NodeModel>) -> int
    decreases s.len(),
{
    if s.len() <= 1 {
        0
    } else {
        let b = best_index(s.subrange(0, s.len() - 1));
        if f64_lt(s[s.len() - 1].confidence, s[b].confidence) {
            b
        } else {
            s.len() - 1
        }
    }
}

proof fn lemma_subrange_prefix<A>(s: Seq<A>, i: int)
    requires
        0 <= i < s.len(),
    ensures
        s.subrange(0, i + 1).subrange(0, i) == s.subrange(0, i),
        s.subrange(0, i + 1)[i] == s[i],
{
    assert(s.subrange(0, i + 1).subrange(0, i) =~= s.subrange(0, i));
}


/// Once a prefix of `s` holds a match, the whole of `s` yields that match.
proof fn lemma_find_prefix(s: Seq<NodeModel>, target: Seq<char>, k: int)
    requires
        0 <= k <= s.len(),
        find_in_all(s.subrange(0, k), target) is Some,
    ensures
        find_in_all(s, target) == find_in_all(s.subrange(0, k), target),
    decreases s.len() - k,
{
    if k < s.len() {
        lemma_subrange_prefix(s, k);
        lemma_find_prefix(s, target, k + 1);
    } else {
        assert(s.subrange(0, k) =~= s);
    }
}

/// Once a prefix of `s` holds a path, the whole of `s` yields that path.
proof fn lemma_path_prefix(s: Seq<NodeModel>, target: Seq<char>, k: int)
    requires
        0 <= k <= s.len(),
        path_in_all(s.subrange(0, k), target) is Some,
    ensures
        path_in_all(s, target) == path_in_all(s.subrange(0, k), target),
    decreases s.len() - k,
{
    if k < s.len() {
        lemma_subrange_prefix(s, k);
        lemma_path_prefix(s, target, k + 1);
    } else {
        assert(s.subrange(0, k) =~= s);
    }
}

/// Every tree in `s` is at most as deep as `max_depth(s)`.
pub proof fn lemma_max_depth_bounds(s: Seq<NodeModel>)
    ensures
        forall|i: int| 0 <= i < s.len() ==> depth(#[trigger] s[i]) <= max_depth(s),
    decreases s.len(),
{
    if s.len() > 0 {
        let p = s.subrange(0, s.len() - 1);
        lemma_max_depth_bounds(p);
        assert forall|i: int| 0 <= i < s.len() implies depth(#[trigger] s[i]) <= max_depth(s) by {
            if i < s.len() - 1 {
                assert(s[i] == p[i]);
            }
        }
    }
}

/// Every tree in `s` has at most `count_all(s)` nodes.
pub proof fn lemma_count_all_bounds(s: Seq<NodeModel>)
    ensures
        forall|i: int| 0 <= i < s.len() ==> count(#[trigger] s[i]) <= count_all(s),
    decreases s.len(),
{
    if s.len() > 0 {
        let p = s.subrange(0, s.len() - 1);
        lemma_count_all_bounds(p);
        assert forall|i: int| 0 <= i < s.len() implies count(#[trigger] s[i]) <= count_all(s) by {
            if i < s.len() - 1 {
                assert(s[i] == p[i]);
            }
        }
    }
}


impl Clone for DecisionNode {
    /// A deep copy.
    fn clone(&self) -> (r: Self)
        ensures
            r@ == self@,
        decreases self,
    {
        proof {
            lemma_nodes_view(self.children@);
        }
        let mut children: Vec<DecisionNode> = Vec::new();
        let mut i: usize = 0;
        while i < self.children.len()
            invariant
                i <= self.children.len(),
                nodes_view(children@) == nodes_view(self.children@).subrange(0, i as int),
                nodes_view(self.children@).len() == self.children@.len(),
                forall|j: int| 0 <= j < self.children@.len() ==> #[trigger] nodes_view(self.children@)[j] == node_view(self.children@[j]),
            decreases self.children.len() - i,
        {
            proof {
                assert(decreases_to!(*self => self.children@[i as int]));
            }
            let c = self.children[i].clone();
            proof {
                lemma_nodes_view_push(children@, c);
            }
            children.push(c);
            assert(nodes_view(children@) =~= nodes_view(self.children@).subrange(0, i + 1));
            i = i + 1;
        }
        assert(nodes_view(self.children@).subrange(0, self.children@.len() as int) =~= nodes_view(self.children@));
        DecisionNode { decision: self.decision.clone(), confidence: self.confidence, children }
    }
}

impl Clone for DecisionTree {
    /// A deep copy.
    fn clone(&self) -> (r: Self)
        ensures
            r@ == self@,
    {
        DecisionTree { root: self.root.clone() }
    }
}

impl DecisionNode {
    /// Whether the node has no children.
    pub fn is_leaf(&self) -> (b: bool)
        ensures
            b == (self@.children.len() == 0),
    {
        proof {
            lemma_nodes_view(self.children@);
        }
        self.children.len() == 0
    }

    /// The child with the highest confidence; when several are equally high
    /// (or incomparable), the last of them. `None` for a leaf.
    pub fn best_child(&self) -> (r: Option<&DecisionNode>)
        ensures
            r is None <==> self@.children.len() == 0,
            r matches Some(c) ==> c@ == self@.children[best_index(self@.children)],
    {
        proof {
            lemma_nodes_view(self.children@);
        }
        let n = self.children.len();
        if n == 0 {
            return None;
        }
        let ghost kids = self@.children;
        let mut best: usize = 0;
        let mut i: usize = 1;
        while i < n
            invariant
                n == self.children.len(),
                kids == self@.children,
                kids.len() == n,
                forall|j: int| 0 <= j < n ==> #[trigger] kids[j] == self.children@[j]@,
                1 <= i <= n,
                best < i,
                best == best_index(kids.subrange(0, i as int)),
            decreases n - i,
        {
            proof {
                lemma_subrange_prefix(kids, i as int);
            }
            if !lt_bits(self.children[i].confidence, self.children[best].confidence) {
                best = i;
            }
            i = i + 1;
        }
        assert(kids.subrange(0, n as int) =~= kids);
        Some(&self.children[best])
    }

    fn node_depth(node: &DecisionNode) -> (r: usize)
        requires
            depth(node@) <= usize::MAX,
        ensures
            r == depth(node@),
        decreases node,
    {
        proof {
            lemma_nodes_view(node.children@);
            lemma_max_depth_bounds(node@.children);
        }
        let ghost kids = node@.children;
        let mut best: usize = 0;
        let mut i: usize = 0;
        while i < node.children.len()
            invariant
                kids == node@.children,
                kids.len() == node.children.len(),
                forall|j: int| 0 <= j < kids.len() ==> #[trigger] kids[j] == node.children@[j]@,
                forall|j: int| 0 <= j < kids.len() ==> depth(#[trigger] kids[j]) <= max_depth(kids),
                depth(node@) <= usize::MAX,
                i <= node.children.len(),
                best == max_depth(kids.subrange(0, i as int)),
            decreases node.children.len() - i,
        {
            proof {
                lemma_subrange_prefix(kids, i as int);
                assert(decreases_to!(*node => node.children@[i as int]));
            }
            let d = Self::node_depth(&node.children[i]);
            if d > best {
                best = d;
            }
            i = i + 1;
        }
        assert(kids.subrange(0, kids.len() as int) =~= kids);
        1 + best
    }

    fn count_nodes(node: &DecisionNode) -> (r: usize)
        requires
            count(node@) <= usize::MAX,
        ensures
            r == count(node@),
        decreases node,
    {
        proof {
            lemma_nodes_view(node.children@);
            lemma_count_all_bounds(node@.children);
        }
        let ghost kids = node@.children;
        let mut total: usize = 0;
        let mut i: usize = 0;
        while i < node.children.len()
            invariant
                kids == node@.children,
                kids.len() == node.children.len(),
                forall|j: int| 0 <= j < kids.len() ==> #[trigger] kids[j] == node.children@[j]@,
                count(node@) <= usize::MAX,
                count(node@) == 1 + count_all(kids),
                i <= node.children.len(),
                total == count_all(kids.subrange(0, i as int)),
                total <= count_all(kids),
            decreases node.children.len() - i,
        {
            proof {
                lemma_subrange_prefix(kids, i as int);
                lemma_count_all_prefix_monotone(kids, i as int + 1);
                lemma_count_all_bounds(kids);
                assert(decreases_to!(*node => node.children@[i as int]));
            }
            let c = Self::count_nodes(&node.children[i]);
            total = total + c;
            i = i + 1;
        }
        assert(kids.subrange(0, kids.len() as int) =~= kids);
        1 + total
    }
    fn find_in<'a>(node: &'a DecisionNode, target: &String) -> (r: Option<&'a DecisionNode>)
        ensures
            match r {
                Some(n) => find_model(node@, target@) == Some(n@),
                None => find_model(node@, target@) is None,
            },
        decreases node,
    {
        if node.decision == *target {
            return Some(node);
        }
        proof {
            lemma_nodes_view(node.children@);
        }
        let ghost kids = node@.children;
        let mut i: usize = 0;
        while i < node.children.len()
            invariant
                kids == node@.children,
                kids.len() == node.children.len(),
                forall|j: int| 0 <= j < kids.len() ==> #[trigger] kids[j] == node.children@[j]@,
                node@.decision != target@,
                i <= node.children.len(),
                find_in_all(kids.subrange(0, i as int), target@) is None,
            decreases node.children.len() - i,
        {
            proof {
                lemma_subrange_prefix(kids, i as int);
                assert(decreases_to!(*node => node.children@[i as int]));
            }
            match Self::find_in(&node.children[i], target) {
                Some(found) => {
                    proof {
                        lemma_find_prefix(kids, target@, i as int + 1);
                    }
                    return Some(found);
                },
                None => {},
            }
            i = i + 1;
        }
        assert(kids.subrange(0, kids.len() as int) =~= kids);
        None
    }

    fn build_path<'a>(node: &'a DecisionNode, target: &String, path: &mut Vec<&'a DecisionNode>) -> (found: bool)
        ensures
            found == (path_model(node@, target@) is Some),
            found ==> refs_view(final(path)@) == refs_view(old(path)@) + path_model(node@, target@)->0,
            !found ==> final(path)@ == old(path)@,
        decreases node,
    {
        let ghost start = path@;
        path.push(node);
        if node.decision == *target {
            assert(refs_view(path@) =~= refs_view(start) + seq![node@]);
            return true;
        }
        proof {
            lemma_nodes_view(node.children@);
        }
        let ghost kids = node@.children;
        let mut i: usize = 0;
        while i < node.children.len()
            invariant
                kids == node@.children,
                kids.len() == node.children.len(),
                forall|j: int| 0 <= j < kids.len() ==> #[trigger] kids[j] == node.children@[j]@,
                node@.decision != target@,
                i <= node.children.len(),
                path_in_all(kids.subrange(0, i as int), target@) is None,
                path@ == start.push(node),
                start == old(path)@,
            decreases node.children.len() - i,
        {
            proof {
                lemma_subrange_prefix(kids, i as int);
                assert(decreases_to!(*node => node.children@[i as int]));
            }
            if Self::build_path(&node.children[i], target, path) {
                let ghost p = path_model(kids[i as int], target@)->0;
                proof {
                    lemma_path_prefix(kids, target@, i as int + 1);
                }
                assert(refs_view(start.push(node)) =~= refs_view(start) + seq![node@]);
                assert(refs_view(path@) =~= refs_view(start) + (seq![node@] + p));
                return true;
            }
            i = i + 1;
        }
        assert(kids.subrange(0, kids.len() as int) =~= kids);
        path.pop();
        assert(path@ =~= start);
        false
    }
}

/// A prefix of `s` has no more nodes than `s`.
proof fn lemma_count_all_prefix_monotone(s: Seq<NodeModel>, i: int)
    requires
        0 <= i <= s.len(),
    ensures
        count_all(s.subrange(0, i)) <= count_all(s),
    decreases s.len() - i,
{
    if i < s.len() {
        lemma_count_all_prefix_monotone(s, i + 1);
        lemma_subrange_prefix(s, i);
    } else {
        assert(s.subrange(0, i) =~= s);
    }
}

impl DecisionTree {
    /// The number of levels of the tree.
    pub fn depth(&self) -> (r: usize)
        requires
            depth(self@) <= usize::MAX,
        ensures
            r == depth(self@),
    {
        DecisionNode::node_depth(&self.root)
    }

    /// The number of nodes of the tree.
    pub fn node_count(&self) -> (r: usize)
        requires
            count(self@) <= usize::MAX,
        ensures
            r == count(self@),
    {
        DecisionNode::count_nodes(&self.root)
    }

    /// The first node, in preorder, whose decision is `decision`.
    pub fn find(&self, decision: &str) -> (r: Option<&DecisionNode>)
        ensures
            match r {
                Some(n) => find_model(self@, decision@) == Some(n@),
                None => find_model(self@, decision@) is None,
            },
    {
        let target = decision.to_owned();
        DecisionNode::find_in(&self.root, &target)
    }

    /// The nodes from the root down to the first node, in preorder, whose
    /// decision is `decision`; empty when there is none.
    pub fn path_to(&self, decision: &str) -> (r: Vec<&DecisionNode>)
        ensures
            match path_model(self@, decision@) {
                Some(p) => refs_view(r@) == p,
                None => r@.len() == 0,
            },
    {
        let target = decision.to_owned();
        let mut path: Vec<&DecisionNode> = Vec::new();
        let found = DecisionNode::build_path(&self.root, &target, &mut path);
        proof {
            if found {
                assert(refs_view(Seq::<&DecisionNode>::empty()) =~= Seq::<NodeModel>::empty());
                assert(Seq::<NodeModel>::empty() + path_model(self@, decision@)->0 =~= path_model(self@, decision@)->0);
            }
        }
        path
    }
}

} // verus!
