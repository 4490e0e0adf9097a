//! The shape of the Barnes-Hut quadtree: nodes stored in a vector, four consecutive children
//! per branch, a `next` link that lets a walk skip a subtree, and the order in which branches
//! were split.  What the nodes carry (masses, squares) is a type parameter.
use vstd::prelude::*;

verus! {

/// The quadrant of a square that a point falls in: bit 0 is set when the point lies right of
/// the centre, bit 1 when it lies below it.
pub open spec fn quadrant_of(below: bool, right: bool) -> int {
    (if below { 2int } else { 0int }) + (if right { 1int } else { 0int })
}

/// The number of the quadrant that a point falls in, given on which sides of the centre it
/// lies.
pub fn quadrant_index(below: bool, right: bool) -> (q: usize)
    ensures
        q == quadrant_of(below, right),
        q < 4,
{
    let b = below as usize;
    let r = right as usize;
    assert((b << 1usize) | r == 2 * b + r) by (bit_vector)
        requires
            b <= 1,
            r <= 1,
    ;
    (b << 1) | r
}

/// The column (`0` left, `1` right) and row (`0` above, `1` below) of quadrant `q` of a
/// square, along which the quadrant's centre is moved away from the square's.
pub fn quadrant_bits(q: usize) -> (r: (usize, usize))
    ensures
        r == ((q % 2) as usize, (q / 2) as usize),
{
    assert(q & 1 == q % 2) by (bit_vector);
    assert(q >> 1 == q / 2) by (bit_vector);
    (q & 1, q >> 1)
}

/// The quadrant that a point is found in is the one whose centre is moved to that point's
/// side, and each quadrant is found from the side it is moved to.
pub proof fn lemma_quadrant_roundtrip(below: bool, right: bool, q: int)
    requires
        0 <= q < 4,
    ensures
        quadrant_of(below, right) % 2 == (if right { 1int } else { 0int }),
        quadrant_of(below, right) / 2 == (if below { 1int } else { 0int }),
        quadrant_of(q / 2 == 1, q % 2 == 1) == q,
{
}

/// A node of the quadtree: where its four children start (`0` for a leaf), the node that
/// follows its subtree in a walk over the tree (`0` where none does), and the data that it
/// carries.
pub struct Node<T> {
    pub children: usize,
    pub next: usize,
    pub body: T,
}

impl<T> Node<T> {
    /// A leaf followed by `next`.
    pub fn new(next: usize, body: T) -> (n: Node<T>)
        ensures
            n.children == 0,
            n.next == next,
            n.body == body,
    {
        Node { children: 0, next, body }
    }

    /// Whether the node has no children.
    pub fn is_leaf(&self) -> (r: bool)
        ensures
            r == (self.children == 0),
    {
        self.children == 0
    }

    /// Whether the node has children.
    pub fn is_branch(&self) -> (r: bool)
        ensures
            r == (self.children != 0),
    {
        self.children != 0
    }
}

/// The shape of a quadtree stored in a vector: the root at index `0`, the four children of a
/// branch at consecutive indices, and `parents` listing the branches in the order in which
/// they were split.
pub struct Quadtree<T> {
    nodes: Vec<Node<T>>,
    parents: Vec<usize>,
    /// The position of each node in a walk over the tree: a node's first child and the node
    /// that follows it come later.
    ranks: Ghost<Seq<int>>,
}

/// The rank at which a walk over the tree leaves the subtree of node `k`: that of the node
/// following it, or the number of nodes where none follows.
pub open spec fn walk_end<T>(nodes: Seq<Node<T>>, ranks: Seq<int>, k: int) -> int {
    if nodes[k].next == 0 {
        nodes.len() as int
    } else {
        ranks[nodes[k].next as int]
    }
}

/// The node that a walk descending into every branch visits after node `k`: its first child
/// if it is a branch, otherwise the node that follows it (`0` ends the walk).
pub open spec fn descend_step<T>(nodes: Seq<Node<T>>, k: int) -> int {
    if nodes[k].children != 0 {
        nodes[k].children as int
    } else {
        nodes[k].next as int
    }
}

/// The node that a walk starting at the root and descending into every branch visits at its
/// step `m`.
pub open spec fn descend_walk<T>(nodes: Seq<Node<T>>, m: nat) -> int
    decreases m,
{
    if m == 0 {
        0
    } else {
        descend_step(nodes, descend_walk(nodes, (m - 1) as nat))
    }
}

/// The branch whose children include node `k`: children stand in groups of four after the
/// root, and group `t` belongs to the branch split `t`-th.
pub open spec fn parent_of(parents: Seq<usize>, k: int) -> int {
    parents[(k - 1) / 4] as int
}

/// Whether node `k` lies in the subtree of node `b`: it is `b`, or its parent lies there.
pub open spec fn in_subtree(parents: Seq<usize>, b: int, k: int) -> bool
    decreases k,
{
    if k == b {
        true
    } else if 0 < k && (k - 1) / 4 < parents.len() && parent_of(parents, k) < k {
        in_subtree(parents, b, parent_of(parents, k))
    } else {
        false
    }
}

/// Subtrees nest: what lies in the subtree of a node of `b`'s subtree lies in `b`'s.
proof fn lemma_in_subtree_trans(parents: Seq<usize>, b: int, a: int, k: int)
    requires
        in_subtree(parents, b, a),
        in_subtree(parents, a, k),
    ensures
        in_subtree(parents, b, k),
    decreases k,
{
    if k != a {
        lemma_in_subtree_trans(parents, b, a, parent_of(parents, k));
    }
}

/// The ranks number the nodes `0, 1, ...` in the order of a walk that descends into every
/// branch: the root comes first, a branch is followed by its first child, and a leaf by the
/// node that follows it.
pub open spec fn ranks_wf<T>(nodes: Seq<Node<T>>, ranks: Seq<int>) -> bool {
    &&& ranks.len() == nodes.len()
    &&& forall|k: int| 0 <= k < nodes.len() ==> 0 <= #[trigger] ranks[k] < nodes.len()
    &&& forall|i: int, j: int| 0 <= i < j < nodes.len() ==> ranks[i] != ranks[j]
    &&& nodes.len() >= 1 ==> ranks[0] == 0
    &&& forall|k: int| 0 <= k < nodes.len() ==> #[trigger] nodes[k].next < nodes.len()
    &&& forall|k: int|
        0 <= k < nodes.len() && #[trigger] nodes[k].next != 0 ==> ranks[nodes[k].next as int]
            > ranks[k]
    &&& forall|k: int|
        0 <= k < nodes.len() && #[trigger] nodes[k].children != 0 ==> ranks[nodes[k].children as int]
            == ranks[k] + 1
    &&& forall|k: int|
        0 <= k < nodes.len() && #[trigger] nodes[k].children == 0 ==> walk_end(nodes, ranks, k)
            == ranks[k] + 1
}

/// The shape invariant of a quadtree with node sequence `nodes` and split order `parents`.
pub open spec fn tree_wf<T>(nodes: Seq<Node<T>>, parents: Seq<usize>) -> bool {
    &&& nodes.len() >= 1 || parents.len() == 0
    &&& forall|t: int|
        #![trigger parents[t]]
        0 <= t < parents.len() ==> {
            let p = parents[t] as int;
            let c = nodes[p].children as int;
            &&& 0 <= p < nodes.len()
            &&& p < c
            &&& c + 4 <= nodes.len()
            &&& nodes[c].next == c + 1
            &&& nodes[c + 1].next == c + 2
            &&& nodes[c + 2].next == c + 3
            &&& nodes[c + 3].next == nodes[p].next
            &&& c == 1 + 4 * t
        }
    &&& forall|s: int, t: int|
        0 <= s < t < parents.len() ==> nodes[parents[s] as int].children < nodes[parents[t] as int].children
    &&& forall|k: int|
        0 <= k < nodes.len() && #[trigger] nodes[k].children != 0 ==> parents.contains(k as usize)
    &&& nodes.len() >= 1 ==> nodes[0].next == 0
    &&& nodes.len() >= 1 ==> nodes.len() == 1 + 4 * parents.len()
}

impl<T> View for Quadtree<T> {
    type V = (Seq<Node<T>>, Seq<usize>);

    closed spec fn view(&self) -> (Seq<Node<T>>, Seq<usize>) {
        (self.nodes@, self.parents@)
    }
}

impl<T> Quadtree<T> {
    /// The shape invariant holds.
    pub closed spec fn wf(&self) -> bool {
        tree_wf(self.nodes@, self.parents@) && ranks_wf(self.nodes@, self.ranks@)
    }

    /// The position of node `k` in a walk over the tree.
    pub closed spec fn walk_rank(&self, k: int) -> int {
        self.ranks@[k]
    }

    /// The index of the root.
    pub const ROOT: usize = 0;

    /// A tree with no nodes.
    pub fn new() -> (t: Quadtree<T>)
        ensures
            t.wf(),
            t@.0 == Seq::<Node<T>>::empty(),
            t@.1 == Seq::<usize>::empty(),
    {
        Quadtree { nodes: Vec::new(), parents: Vec::new(), ranks: Ghost(Seq::empty()) }
    }

    /// Empties the tree and puts a single leaf root carrying `root`.
    pub fn clear(&mut self, root: T)
        ensures
            final(self).wf(),
            final(self)@.0 == seq![Node { children: 0, next: 0, body: root }],
            final(self)@.1 == Seq::<usize>::empty(),
    {
        self.nodes.clear();
        self.parents.clear();
        self.nodes.push(Node::new(0, root));
        proof {
            self.ranks@ = seq![0int];
        }
    }

    /// The number of nodes.
    pub fn len(&self) -> (n: usize)
        ensures
            n == self@.0.len(),
    {
        self.nodes.len()
    }

    /// Node `i`.
    pub fn node(&self, i: usize) -> (n: &Node<T>)
        requires
            i < self@.0.len(),
        ensures
            *n == self@.0[i as int],
    {
        &self.nodes[i]
    }

    /// The branches in the order in which they were split.
    pub fn parents(&self) -> (p: &Vec<usize>)
        ensures
            p@ == self@.1,
    {
        &self.parents
    }

    /// Replaces the data that node `i` carries; the shape is unchanged.
    pub fn set_body(&mut self, i: usize, body: T)
        requires
            old(self).wf(),
            i < old(self)@.0.len(),
        ensures
            final(self).wf(),
            final(self)@.0 == old(self)@.0.update(
                i as int,
                Node { children: old(self)@.0[i as int].children, next: old(self)@.0[i as int].next, body },
            ),
            final(self)@.1 == old(self)@.1,
    {
        let ghost old_nodes = self.nodes@;
        let n = Node { children: self.nodes[i].children, next: self.nodes[i].next, body };
        self.nodes.set(i, n);
        proof {
            let new_nodes = self.nodes@;
            assert forall|k: int|
                0 <= k < new_nodes.len() && #[trigger] new_nodes[k].children != 0 implies self.parents@.contains(
                k as usize,
            ) by {
                assert(old_nodes[k].children != 0);
            }
            assert forall|t: int| #![trigger self.parents@[t]] 0 <= t < self.parents@.len() implies {
                let p = self.parents@[t] as int;
                let c = new_nodes[p].children as int;
                &&& 0 <= p < new_nodes.len()
                &&& p < c
                &&& c + 4 <= new_nodes.len()
                &&& new_nodes[c].next == c + 1
                &&& new_nodes[c + 1].next == c + 2
                &&& new_nodes[c + 2].next == c + 3
                &&& new_nodes[c + 3].next == new_nodes[p].next
            } by {
                let p = self.parents@[t] as int;
                let c = old_nodes[p].children as int;
                assert(new_nodes[p].children == old_nodes[p].children);
                assert(new_nodes[c].next == old_nodes[c].next);
                assert(new_nodes[c + 1].next == old_nodes[c + 1].next);
                assert(new_nodes[c + 2].next == old_nodes[c + 2].next);
                assert(new_nodes[c + 3].next == old_nodes[c + 3].next);
                assert(new_nodes[p].next == old_nodes[p].next);
            }
            assert forall|k: int| 0 <= k < new_nodes.len() implies #[trigger] new_nodes[k].next == old_nodes[k].next
                && new_nodes[k].children == old_nodes[k].children by {}
            assert forall|s: int, t: int| 0 <= s < t < self.parents@.len() implies new_nodes[self.parents@[s] as int].children
                < new_nodes[self.parents@[t] as int].children by {
                assert(new_nodes[self.parents@[s] as int].children == old_nodes[self.parents@[s] as int].children);
                assert(new_nodes[self.parents@[t] as int].children == old_nodes[self.parents@[t] as int].children);
            }
        }
    }
}


/// The four children that splitting a node creates: each leaf followed by its next sibling,
/// the last one by what followed the split node.
pub open spec fn new_children<T>(first: usize, next: usize, quads: Seq<T>) -> Seq<Node<T>> {
    seq![
        Node { children: 0, next: (first + 1) as usize, body: quads[0] },
        Node { children: 0, next: (first + 2) as usize, body: quads[1] },
        Node { children: 0, next: (first + 3) as usize, body: quads[2] },
        Node { children: 0, next: next, body: quads[3] },
    ]
}

/// Splitting puts the data of quadrant `q` into child `q`, for each of the four quadrants,
/// makes every child a leaf, and threads the children in quadrant order, the last one
/// followed by what followed the split node.
pub proof fn lemma_new_children_in_quadrant_order<T>(first: usize, next: usize, quads: Seq<T>)
    requires
        first + 3 <= usize::MAX,
    ensures
        new_children(first, next, quads).len() == 4,
        forall|q: int|
            0 <= q < 4 ==> (#[trigger] new_children(first, next, quads)[q]).body == quads[q]
                && new_children(first, next, quads)[q].children == 0,
        forall|q: int| 0 <= q < 3 ==> (#[trigger] new_children(first, next, quads)[q]).next == first + q + 1,
        new_children(first, next, quads)[3].next == next,
{
}

impl<T: Copy> Quadtree<T> {
    /// Splits the leaf `node` into four children carrying `quads`, appended to the nodes,
    /// and records `node` as split.  Returns the index of the first child.
    pub fn subdivide(&mut self, node: usize, quads: [T; 4]) -> (children: usize)
        requires
            old(self).wf(),
            node < old(self)@.0.len(),
            old(self)@.0[node as int].children == 0,
            old(self)@.0.len() + 4 <= usize::MAX,
        ensures
            final(self).wf(),
            children == old(self)@.0.len(),
            final(self)@.1 == old(self)@.1.push(node),
            final(self)@.0 == old(self)@.0.update(
                node as int,
                Node {
                    children,
                    next: old(self)@.0[node as int].next,
                    body: old(self)@.0[node as int].body,
                },
            ) + new_children(children, old(self)@.0[node as int].next, quads@),
            final(self)@.0[node as int].children == children,
            forall|q: int|
                0 <= q < 4 ==> (#[trigger] final(self)@.0[children + q]).body == quads@[q]
                    && final(self)@.0[children + q].children == 0,
            forall|q: int| 0 <= q < 3 ==> (#[trigger] final(self)@.0[children + q]).next == children + q + 1,
            final(self)@.0[children + 3].next == old(self)@.0[node as int].next,
    {
        let ghost old_nodes = self.nodes@;
        let ghost old_parents = self.parents@;
        let ghost old_ranks = self.ranks@;
        self.parents.push(node);
        let children = self.nodes.len();

        let nexts = [children + 1, children + 2, children + 3, self.nodes[node].next];

        let parent = Node {
            children,
            next: self.nodes[node].next,
            body: self.nodes[node].body,
        };
        self.nodes.set(node, parent);
        for i in 0..4usize
            invariant
                children == old_nodes.len(),
                node < old_nodes.len(),
                nexts@ == seq![
                    (children + 1) as usize,
                    (children + 2) as usize,
                    (children + 3) as usize,
                    old_nodes[node as int].next,
                ],
                self.nodes@ == old_nodes.update(node as int, parent) + new_children(
                    children,
                    old_nodes[node as int].next,
                    quads@,
                ).take(i as int),
                old_nodes.len() + 4 <= usize::MAX,
                self.parents@ == old_parents.push(node),
                self.ranks@ == old_ranks,
        {
            self.nodes.push(Node::new(nexts[i], quads[i]));
            assert(new_children(children, old_nodes[node as int].next, quads@).take(i + 1)
                =~= new_children(children, old_nodes[node as int].next, quads@).take(i as int).push(
                Node { children: 0, next: nexts@[i as int], body: quads@[i as int] },
            ));
        }
        proof {
            let nodes = self.nodes@;
            let parents = self.parents@;
            let kids = new_children(children, old_nodes[node as int].next, quads@);
            assert(kids.take(4) =~= kids);
            assert(nodes.len() == old_nodes.len() + 4);
            assert forall|q: int| 0 <= q < 4 implies nodes[children + q] == kids[q] by {}
            assert(nodes[children + 3] == kids[3]);
            assert forall|k: int| 0 <= k < old_nodes.len() && k != node implies nodes[k] == old_nodes[k] by {}
            assert forall|k: int| 0 <= k < old_nodes.len() implies #[trigger] nodes[k].next == old_nodes[k].next by {}
            assert(!old_parents.contains(node)) by {
                if old_parents.contains(node) {
                    let t = choose|t: int| 0 <= t < old_parents.len() && old_parents[t] == node;
                    assert(old_parents[t] == node);
                }
            }
            assert forall|t: int| #![trigger parents[t]] 0 <= t < parents.len() implies {
                let p = parents[t] as int;
                let c = nodes[p].children as int;
                &&& 0 <= p < nodes.len()
                &&& p < c
                &&& c + 4 <= nodes.len()
                &&& nodes[c].next == c + 1
                &&& nodes[c + 1].next == c + 2
                &&& nodes[c + 2].next == c + 3
                &&& nodes[c + 3].next == nodes[p].next
            } by {
                if t < old_parents.len() {
                    let p = old_parents[t] as int;
                    assert(parents[t] == old_parents[t]);
                    assert(p != node);
                    let c = old_nodes[p].children as int;
                    assert(old_nodes[c].next == c + 1);
                    assert(nodes[c].next == old_nodes[c].next);
                    assert(nodes[c + 1].next == old_nodes[c + 1].next);
                    assert(nodes[c + 2].next == old_nodes[c + 2].next);
                    assert(nodes[c + 3].next == old_nodes[c + 3].next);
                } else {
                    assert(parents[t] == node);
                    assert(nodes[node as int].children == children);
                    assert(nodes[children as int] == kids[0]);
                    assert(nodes[children + 1] == kids[1]);
                    assert(nodes[children + 2] == kids[2]);
                    assert(nodes[children + 3] == kids[3]);
                }
            }
            assert forall|s: int, t: int| 0 <= s < t < parents.len() implies nodes[parents[s] as int].children
                < nodes[parents[t] as int].children by {
                assert(parents[s] == old_parents[s]);
                assert(old_parents[s] != node);
                let ps = old_parents[s] as int;
                assert(nodes[ps] == old_nodes[ps]);
                if t < old_parents.len() {
                    assert(parents[t] == old_parents[t]);
                    assert(old_parents[t] != node);
                } else {
                    assert(parents[t] == node);
                }
            }
            assert forall|k: int| 0 <= k < nodes.len() && #[trigger] nodes[k].children != 0 implies parents.contains(
                k as usize,
            ) by {
                if k == node {
                    assert(parents[old_parents.len() as int] == node);
                } else if k < old_nodes.len() {
                    assert(old_nodes[k].children != 0);
                    let t = choose|t: int| 0 <= t < old_parents.len() && old_parents[t] == k as usize;
                    assert(parents[t] == k as usize);
                } else {
                    assert(nodes[k] == kids[k - old_nodes.len()]);
                }
            }

            let rl = old_ranks[node as int];
            let old_len = old_nodes.len() as int;
            let shifted = Seq::new(
                old_nodes.len(),
                |k: int| if old_ranks[k] > rl { old_ranks[k] + 4 } else { old_ranks[k] },
            );
            let new_ranks = shifted + seq![rl + 1, rl + 2, rl + 3, rl + 4];
            self.ranks@ = new_ranks;
            assert forall|k: int| 0 <= k < nodes.len() implies 0 <= #[trigger] new_ranks[k] < nodes.len() by {
                if k < old_len {
                    assert(new_ranks[k] == shifted[k]);
                }
            }
            assert forall|k: int| 0 <= k < nodes.len() implies #[trigger] nodes[k].next < nodes.len() by {
                if k < old_len {
                    assert(nodes[k].next == old_nodes[k].next);
                } else {
                    assert(nodes[k] == kids[k - old_len]);
                }
            }
            assert forall|k: int| 0 <= k < nodes.len() && #[trigger] nodes[k].next != 0 implies new_ranks[nodes[k].next as int]
                > new_ranks[k] by {
                if k < old_len {
                    let nx = old_nodes[k].next as int;
                    assert(nodes[k].next == old_nodes[k].next);
                    assert(old_ranks[nx] > old_ranks[k]);
                    assert(new_ranks[k] == shifted[k]);
                    assert(new_ranks[nx] == shifted[nx]);
                } else {
                    assert(nodes[k] == kids[k - old_len]);
                    if k == old_len + 3 {
                        let nx = old_nodes[node as int].next as int;
                        assert(old_ranks[nx] > rl);
                        assert(new_ranks[nx] == shifted[nx]);
                    }
                }
            }
            assert forall|k: int| 0 <= k < nodes.len() && #[trigger] nodes[k].children != 0 implies new_ranks[nodes[k].children as int]
                > new_ranks[k] by {
                if k == node {
                    assert(new_ranks[k] == shifted[k]);
                    assert(new_ranks[old_len] == rl + 1);
                } else if k < old_len {
                    let ch = old_nodes[k].children as int;
                    assert(nodes[k].children == old_nodes[k].children);
                    assert(old_ranks[ch] > old_ranks[k]);
                    assert(new_ranks[k] == shifted[k]);
                    assert(new_ranks[ch] == shifted[ch]);
                } else {
                    assert(nodes[k] == kids[k - old_len]);
                }
            }
        }
        children
    }
}


impl<T> Quadtree<T> {
    /// The index of child `quadrant` of the branch `node`.
    pub fn child(&self, node: usize, quadrant: usize) -> (c: usize)
        requires
            self.wf(),
            node < self@.0.len(),
            self@.0[node as int].children != 0,
            quadrant < 4,
        ensures
            c == self@.0[node as int].children + quadrant,
            c < self@.0.len(),
    {
        proof {
            let t = choose|t: int| 0 <= t < self.parents@.len() && self.parents@[t] == node;
            assert(self.parents@[t] == node);
        }
        self.nodes[node].children + quadrant
    }

    /// The node a walk over the tree visits after `node`: its first child when the walk
    /// descends into a branch, otherwise the node that follows its subtree; `0` ends the walk.
    pub fn walk_next(&self, node: usize, descend: bool) -> (r: usize)
        requires
            self.wf(),
            node < self@.0.len(),
        ensures
            r == (if descend && self@.0[node as int].children != 0 {
                self@.0[node as int].children
            } else {
                self@.0[node as int].next
            }),
            r < self@.0.len(),
            r != 0 ==> self.walk_rank(r as int) > self.walk_rank(node as int),
    {
        proof {
            if self.nodes@[node as int].children != 0 {
                let t = choose|t: int| 0 <= t < self.parents@.len() && self.parents@[t] == node;
                assert(self.parents@[t] == node);
            }
        }
        let n = &self.nodes[node];
        if descend && n.children != 0 {
            n.children
        } else {
            n.next
        }
    }

    /// Every node's place in a walk lies below the number of nodes, so a walk from the root
    /// visits at most that many nodes before it ends.
    pub proof fn lemma_walk_rank_bounded(&self, k: int)
        requires
            self.wf(),
            0 <= k < self@.0.len(),
        ensures
            0 <= self.walk_rank(k) < self@.0.len(),
    {
    }

    /// A branch whose children include another branch was split before it, so walking the
    /// split order backwards reaches every branch after all branches below it.
    pub proof fn lemma_children_split_later(&self, s: int, t: int)
        requires
            self.wf(),
            0 <= s < self@.1.len(),
            0 <= t < self@.1.len(),
            self@.0[self@.1[s] as int].children <= self@.1[t] < self@.0[self@.1[s] as int].children + 4,
        ensures
            s < t,
    {
        let parents = self.parents@;
        assert(parents[s] < self.nodes@[parents[s] as int].children);
        assert(parents[t] < self.nodes@[parents[t] as int].children);
        if t < s {
            assert(self.nodes@[parents[t] as int].children < self.nodes@[parents[s] as int].children);
        }
    }

    /// No node is split twice.
    pub proof fn lemma_split_once(&self)
        requires
            self.wf(),
        ensures
            self@.1.no_duplicates(),
    {
        let parents = self.parents@;
        assert forall|s: int, t: int| 0 <= s < parents.len() && 0 <= t < parents.len() && s != t
            implies parents[s] != parents[t] by {
            if s < t {
                assert(self.nodes@[parents[s] as int].children < self.nodes@[parents[t] as int].children);
            } else {
                assert(self.nodes@[parents[t] as int].children < self.nodes@[parents[s] as int].children);
            }
        }
    }

    /// The rank at which a walk over the tree leaves the subtree of node `b`: that of the
    /// node following `b`, or the number of nodes where none follows.
    pub open spec fn subtree_end(&self, b: int) -> int {
        if self@.0[b].next == 0 {
            self@.0.len() as int
        } else {
            self.walk_rank(self@.0[b].next as int)
        }
    }

    /// Every node's walk lies before the end of its subtree.
    proof fn lemma_rank_before_end(&self, k: int)
        requires
            self.wf(),
            0 <= k < self.nodes@.len(),
        ensures
            self.ranks@[k] < walk_end(self.nodes@, self.ranks@, k),
            walk_end(self.nodes@, self.ranks@, k) <= self.nodes@.len(),
    {
        assert(self.nodes@[k].next < self.nodes@.len());
        if self.nodes@[k].next != 0 {
            assert(0 <= self.ranks@[self.nodes@[k].next as int] < self.nodes@.len());
        }
    }

    /// The four children `c .. c + 3` of the branch `p` stand in the walk one after the other,
    /// right after `p`, and together fill the rest of `p`'s subtree.
    proof fn lemma_branch_children(&self, p: int)
        requires
            self.wf(),
            0 <= p < self.nodes@.len(),
            self.nodes@[p].children != 0,
        ensures
            ({
                let nodes = self.nodes@;
                let ranks = self.ranks@;
                let c = nodes[p].children as int;
                &&& p < c
                &&& c + 4 <= nodes.len()
                &&& (c - 1) / 4 < self.parents@.len()
                &&& self.parents@[(c - 1) / 4] as int == p
                &&& (c - 1) % 4 == 0
                &&& ranks[c] == ranks[p] + 1
                &&& walk_end(nodes, ranks, c) == ranks[c + 1]
                &&& walk_end(nodes, ranks, c + 1) == ranks[c + 2]
                &&& walk_end(nodes, ranks, c + 2) == ranks[c + 3]
                &&& walk_end(nodes, ranks, c + 3) == walk_end(nodes, ranks, p)
                &&& ranks[c] < ranks[c + 1] < ranks[c + 2] < ranks[c + 3]
                &&& ranks[c + 3] < walk_end(nodes, ranks, p)
            }),
    {
        assert(self.nodes.len() == self.nodes@.len());
        let t = choose|t: int| 0 <= t < self.parents@.len() && self.parents@[t] == p as usize;
        assert(self.parents@[t] == p as usize);
        let c = self.nodes@[p].children as int;
        assert(c == 1 + 4 * t);
        assert((c - 1) / 4 == t);
        self.lemma_rank_before_end(c);
        self.lemma_rank_before_end(c + 1);
        self.lemma_rank_before_end(c + 2);
        self.lemma_rank_before_end(c + 3);
    }

    /// Step `m` of the descending walk from the root is the node of walk rank `m`.
    proof fn lemma_descend_walk_rank(&self, m: nat)
        requires
            self.wf(),
            m < self.nodes@.len(),
        ensures
            0 <= descend_walk(self.nodes@, m) < self.nodes@.len(),
            self.ranks@[descend_walk(self.nodes@, m)] == m,
        decreases m,
    {
        if m > 0 {
            self.lemma_descend_walk_rank((m - 1) as nat);
            let k = descend_walk(self.nodes@, (m - 1) as nat);
            if self.nodes@[k].children != 0 {
                self.lemma_branch_children(k);
            } else {
                assert(self.nodes@[k].next < self.nodes@.len());
                assert(walk_end(self.nodes@, self.ranks@, k) == self.ranks@[k] + 1);
            }
        }
    }

    /// A walk from the root that descends into every branch visits every node exactly once:
    /// its step `m` is the node of walk rank `m`, each node is visited at the step given by
    /// its rank, no node twice, and the step after the last node ends the walk.
    pub proof fn lemma_walk_covers_tree(&self)
        requires
            self.wf(),
        ensures
            forall|m: nat|
                m < self@.0.len() ==> 0 <= #[trigger] descend_walk(self@.0, m) < self@.0.len()
                    && self.walk_rank(descend_walk(self@.0, m)) == m,
            forall|k: int|
                0 <= k < self@.0.len() ==> 0 <= #[trigger] self.walk_rank(k) < self@.0.len()
                    && descend_walk(self@.0, self.walk_rank(k) as nat) == k,
            forall|m1: nat, m2: nat|
                m1 < m2 < self@.0.len() ==> #[trigger] descend_walk(self@.0, m1) != #[trigger] descend_walk(
                    self@.0,
                    m2,
                ),
            self@.0.len() >= 1 ==> descend_step(self@.0, descend_walk(self@.0, (self@.0.len() - 1) as nat))
                == 0,
    {
        let nodes = self.nodes@;
        let ranks = self.ranks@;
        assert forall|m: nat| m < nodes.len() implies 0 <= #[trigger] descend_walk(nodes, m) < nodes.len()
            && ranks[descend_walk(nodes, m)] == m by {
            self.lemma_descend_walk_rank(m);
        }
        assert forall|k: int| 0 <= k < nodes.len() implies 0 <= #[trigger] ranks[k] < nodes.len()
            && descend_walk(nodes, ranks[k] as nat) == k by {
            let j = descend_walk(nodes, ranks[k] as nat);
            self.lemma_descend_walk_rank(ranks[k] as nat);
            if j < k {
                assert(ranks[j] != ranks[k]);
            } else if k < j {
                assert(ranks[k] != ranks[j]);
            }
        }
        assert forall|m1: nat, m2: nat| m1 < m2 < nodes.len() implies #[trigger] descend_walk(nodes, m1)
            != #[trigger] descend_walk(nodes, m2) by {
            self.lemma_descend_walk_rank(m1);
            self.lemma_descend_walk_rank(m2);
        }
        if nodes.len() >= 1 {
            let last = descend_walk(nodes, (nodes.len() - 1) as nat);
            self.lemma_descend_walk_rank((nodes.len() - 1) as nat);
            if nodes[last].children != 0 {
                self.lemma_branch_children(last);
                assert(ranks[nodes[last].children as int] < nodes.len());
            } else {
                assert(nodes[last].next < nodes.len());
                if nodes[last].next != 0 {
                    assert(ranks[nodes[last].next as int] < nodes.len());
                }
            }
        }
    }

    /// What lies in the subtree of `b` lies within `b`'s stretch of the walk.
    proof fn lemma_subtree_within_stretch(&self, b: int, k: int)
        requires
            self.wf(),
            0 <= b < self.nodes@.len(),
            0 <= k < self.nodes@.len(),
            in_subtree(self.parents@, b, k),
        ensures
            self.ranks@[b] <= self.ranks@[k],
            walk_end(self.nodes@, self.ranks@, k) <= walk_end(self.nodes@, self.ranks@, b),
        decreases k,
    {
        let parents = self.parents@;
        if k != b {
            let t = (k - 1) / 4;
            let p = parent_of(parents, k);
            assert(parents[t] as int == p);
            let c = self.nodes@[p].children as int;
            assert(0 <= p < self.nodes@.len() && c == 1 + 4 * t);
            self.lemma_subtree_within_stretch(b, p);
            self.lemma_branch_children(p);
            assert(c <= k < c + 4);
        }
    }

    /// What lies within `b`'s stretch of the walk lies in the subtree of `b`.
    proof fn lemma_stretch_within_subtree(&self, b: int, k: int)
        requires
            self.wf(),
            0 <= b < self.nodes@.len(),
            0 <= k < self.nodes@.len(),
            self.ranks@[b] <= self.ranks@[k] < walk_end(self.nodes@, self.ranks@, b),
        ensures
            in_subtree(self.parents@, b, k),
        decreases walk_end(self.nodes@, self.ranks@, b) - self.ranks@[b],
    {
        let nodes = self.nodes@;
        let ranks = self.ranks@;
        let parents = self.parents@;
        if ranks[k] == ranks[b] {
            if k < b {
                assert(ranks[k] != ranks[b]);
            } else if b < k {
                assert(ranks[b] != ranks[k]);
            }
        } else {
            assert(nodes[b].children != 0);
            self.lemma_branch_children(b);
            let c = nodes[b].children as int;
            let a = if ranks[k] < ranks[c + 1] {
                c
            } else if ranks[k] < ranks[c + 2] {
                c + 1
            } else if ranks[k] < ranks[c + 3] {
                c + 2
            } else {
                c + 3
            };
            self.lemma_stretch_within_subtree(a, k);
            assert((a - 1) / 4 == (c - 1) / 4);
            assert(in_subtree(parents, b, b));
            assert(in_subtree(parents, b, a));
            lemma_in_subtree_trans(parents, b, a, k);
        }
    }

    /// The subtree of node `b` is a stretch of the descending walk: node `k` lies in it
    /// exactly when its walk rank lies from that of `b` up to `subtree_end(b)`, and where a
    /// node follows `b`, the walk reaches that node right after the subtree.
    pub proof fn lemma_subtree_is_walk_stretch(&self, b: int, k: int)
        requires
            self.wf(),
            0 <= b < self@.0.len(),
            0 <= k < self@.0.len(),
        ensures
            in_subtree(self@.1, b, k) <==> self.walk_rank(b) <= self.walk_rank(k) < self.subtree_end(b),
            self@.0[b].next != 0 ==> descend_walk(self@.0, self.subtree_end(b) as nat)
                == self@.0[b].next,
    {
        if in_subtree(self.parents@, b, k) {
            self.lemma_subtree_within_stretch(b, k);
            self.lemma_rank_before_end(k);
        }
        if self.ranks@[b] <= self.ranks@[k] < walk_end(self.nodes@, self.ranks@, b) {
            self.lemma_stretch_within_subtree(b, k);
        }
        if self.nodes@[b].next != 0 {
            self.lemma_walk_covers_tree();
            assert(self.nodes@[b].next < self.nodes@.len());
        }
    }
}

} // verus!
