use vstd::prelude::*;

verus! {

/// What a node holds, as plain values: its payload, the indices of its
/// children from left to right, and its parent with the place that the
/// node has among the parent's children.
pub struct NodeView<T> {
    pub value: Option<T>,
    pub children: Seq<usize>,
    pub parent: Option<(usize, usize)>,
}

impl<T> NodeView<T> {
    /// The index of the parent, or -1 where there is none.
    pub open spec fn parent_index(self) -> int {
        match self.parent {
            Some((p, _)) => p as int,
            None => -1,
        }
    }

    /// The place among the parent's children, or -1 where there is no
    /// parent.
    pub open spec fn parent_place(self) -> int {
        match self.parent {
            Some((_, k)) => k as int,
            None => -1,
        }
    }
}

/// A node of a tree. Nodes live in a `Tree` and name each other by their
/// index in it.
pub struct Node<T> {
    value: Option<T>,
    children: Vec<usize>,
    parent: Option<(usize, usize)>,
}

impl<T> View for Node<T> {
    type V = NodeView<T>;

    closed spec fn view(&self) -> NodeView<T> {
        NodeView { value: self.value, children: self.children@, parent: self.parent }
    }
}

impl<T> Node<T> {
    /// A node without children and without a parent.
    pub fn new(value: Option<T>) -> (r: Self)
        ensures
            r@ == (NodeView { value, children: Seq::<usize>::empty(), parent: None }),
    {
        Node { value, children: Vec::new(), parent: None }
    }

    /// The payload.
    pub fn value(&self) -> (r: &Option<T>)
        ensures
            *r == self@.value,
    {
        &self.value
    }

    /// Replaces the payload.
    pub fn set_value(&mut self, value: T)
        ensures
            final(self)@ == (NodeView { value: Some(value), ..old(self)@ }),
    {
        self.value = Some(value);
    }

    /// The indices of the children, from left to right.
    pub fn children(&self) -> (r: &Vec<usize>)
        ensures
            r@ == self@.children,
    {
        &self.children
    }

    /// The number of children.
    pub fn len_children(&self) -> (r: usize)
        ensures
            r == self@.children.len(),
    {
        self.children.len()
    }

    /// The parent and the place of this node among its children.
    pub fn parent(&self) -> (r: Option<(usize, usize)>)
        ensures
            r == self@.parent,
    {
        self.parent
    }

    /// Records `parent` as the parent, with this node at place `index`.
    pub fn set_parent(&mut self, parent: usize, index: usize)
        ensures
            final(self)@ == (NodeView { parent: Some((parent, index)), ..old(self)@ }),
    {
        self.parent = Some((parent, index));
    }
}

/// The nodes of one or more trees, each known by its index.
pub struct Tree<T> {
    nodes: Vec<Node<T>>,
}

impl<T> View for Tree<T> {
    type V = Seq<NodeView<T>>;

    closed spec fn view(&self) -> Seq<NodeView<T>> {
        Seq::new(self.nodes@.len(), |i: int| self.nodes@[i]@)
    }
}

/// Every index that a node names is the index of a node.
pub open spec fn in_bounds<T>(nodes: Seq<NodeView<T>>) -> bool {
    &&& forall|i: int, k: int|
        0 <= i < nodes.len() && 0 <= k < nodes[i].children.len() ==> (
        #[trigger] nodes[i].children[k]) < nodes.len()
    &&& forall|i: int|
        0 <= i < nodes.len() && (#[trigger] nodes[i]).parent is Some ==> nodes[i].parent_index()
            < nodes.len()
}

/// Every back-reference is right: a node that names a parent and a place
/// stands at that place among the parent's children.
pub open spec fn linked<T>(nodes: Seq<NodeView<T>>) -> bool {
    forall|i: int|
        0 <= i < nodes.len() && (#[trigger] nodes[i]).parent is Some ==> {
            let (p, k) = nodes[i].parent->0;
            &&& p < nodes.len()
            &&& k < nodes[p as int].children.len()
            &&& nodes[p as int].children[k as int] == i
        }
}

/// The number of nodes, and of the children of each node, fits in `usize`.
pub open spec fn sized<T>(nodes: Seq<NodeView<T>>) -> bool {
    &&& nodes.len() <= usize::MAX
    &&& forall|i: int| 0 <= i < nodes.len() ==> (#[trigger] nodes[i]).children.len() <= usize::MAX
}

/// `rank` gives every node a number above that of its parent.
pub open spec fn ranked<T>(nodes: Seq<NodeView<T>>, rank: Seq<nat>) -> bool {
    &&& rank.len() == nodes.len()
    &&& forall|i: int|
        0 <= i < nodes.len() && (#[trigger] nodes[i]).parent is Some ==> {
            let p = nodes[i].parent_index();
            p < nodes.len() && rank[p] < rank[i]
        }
}

/// Following parents never comes back to where it started.
pub open spec fn acyclic<T>(nodes: Seq<NodeView<T>>) -> bool {
    exists|rank: Seq<nat>| ranked(nodes, rank)
}

/// Whether `child` can take `parent` as its parent without closing a
/// circle: some ranking of the forest puts `parent` below `child`
/// already.
pub open spec fn can_adopt<T>(nodes: Seq<NodeView<T>>, parent: int, child: int) -> bool {
    exists|rank: Seq<nat>| ranked(nodes, rank) && #[trigger] rank[parent] < rank[child]
}

/// Some ranking of an acyclic forest.
pub open spec fn some_rank<T>(nodes: Seq<NodeView<T>>) -> Seq<nat> {
    choose|rank: Seq<nat>| ranked(nodes, rank)
}

/// The node reached from `id` by following parents until none remains.
pub open spec fn spec_root<T>(nodes: Seq<NodeView<T>>, id: int) -> int
    decreases some_rank(nodes)[id],
    when acyclic(nodes) && 0 <= id < nodes.len()
{
    match nodes[id].parent {
        Some((p, _)) => spec_root(nodes, p as int),
        None => id,
    }
}

/// The nodes after `child` was appended to the children of `parent`.
pub open spec fn with_child<T>(nodes: Seq<NodeView<T>>, parent: int, child: int) -> Seq<
    NodeView<T>,
> {
    let index = nodes[parent].children.len() as usize;
    let moved = nodes.update(
        child,
        NodeView { parent: Some((parent as usize, index)), ..nodes[child] },
    );
    moved.update(
        parent,
        NodeView { children: moved[parent].children.push(child as usize), ..moved[parent] },
    )
}

/// The nodes after `child` took the place `index` among the children of
/// `parent`.
pub open spec fn with_child_at<T>(
    nodes: Seq<NodeView<T>>,
    parent: int,
    index: int,
    child: int,
) -> Seq<NodeView<T>> {
    let moved = nodes.update(
        child,
        NodeView { parent: Some((parent as usize, index as usize)), ..nodes[child] },
    );
    moved.update(
        parent,
        NodeView {
            children: moved[parent].children.update(index, child as usize),
            ..moved[parent]
        },
    )
}

impl<T> Tree<T> {
    /// A tree without nodes.
    pub fn new() -> (r: Self)
        ensures
            r@ == Seq::<NodeView<T>>::empty(),
    {
        let r = Tree { nodes: Vec::new() };
        assert(r@ =~= Seq::<NodeView<T>>::empty());
        r
    }

    /// The nodes of a tree are never more than `usize` can count.
    pub proof fn lemma_sized(&self)
        ensures
            sized(self@),
    {
        assert(self.nodes.len() == self.nodes@.len());
        assert forall|i: int| 0 <= i < self@.len() implies (#[trigger] self@[i]).children.len()
            <= usize::MAX by {
            assert(self.nodes@[i].children.len() == self.nodes@[i].children@.len());
        }
    }

    /// The number of nodes.
    pub fn len(&self) -> (r: usize)
        ensures
            r == self@.len(),
    {
        self.nodes.len()
    }

    /// Adds a node and returns its index.
    pub fn insert(&mut self, node: Node<T>) -> (id: usize)
        ensures
            id == old(self)@.len(),
            final(self)@ == old(self)@.push(node@),
            linked(old(self)@) && node@.parent is None ==> linked(final(self)@),
            acyclic(old(self)@) && node@.parent is None ==> acyclic(final(self)@),
    {
        let id = self.nodes.len();
        self.nodes.push(node);
        assert(self@ =~= old(self)@.push(node@));
        proof {
            let before = old(self)@;
            let after = before.push(node@);
            if linked(before) && node@.parent is None {
                assert forall|i: int| 0 <= i < after.len() && (#[trigger] after[i]).parent is Some implies {
                    let (p, k) = after[i].parent->0;
                    &&& p < after.len()
                    &&& k < after[p as int].children.len()
                    &&& after[p as int].children[k as int] == i
                } by {
                    assert(after[i] == before[i]);
                    let (p, k) = before[i].parent->0;
                    assert(after[p as int] == before[p as int]);
                }
            }
            if acyclic(before) && node@.parent is None {
                lemma_acyclic_push(before, node@);
            }
        }
        id
    }

    /// The node with index `id`.
    pub fn node(&self, id: usize) -> (r: &Node<T>)
        requires
            id < self@.len(),
        ensures
            r@ == self@[id as int],
    {
        &self.nodes[id]
    }

    /// The payload of node `id`.
    pub fn value(&self, id: usize) -> (r: &Option<T>)
        requires
            id < self@.len(),
        ensures
            *r == self@[id as int].value,
    {
        self.nodes[id].value()
    }

    /// Replaces the payload of node `id`.
    pub fn set_value(&mut self, id: usize, value: T)
        requires
            id < old(self)@.len(),
        ensures
            final(self)@ == old(self)@.update(
                id as int,
                NodeView { value: Some(value), ..old(self)@[id as int] },
            ),
            linked(old(self)@) ==> linked(final(self)@),
            acyclic(old(self)@) ==> acyclic(final(self)@),
    {
        proof {
            let after = old(self)@.update(
                id as int,
                NodeView { value: Some(value), ..old(self)@[id as int] },
            );
            if linked(old(self)@) {
                assert forall|i: int| 0 <= i < after.len() && (#[trigger] after[i]).parent is Some implies {
                    let (p, k) = after[i].parent->0;
                    &&& p < after.len()
                    &&& k < after[p as int].children.len()
                    &&& after[p as int].children[k as int] == i
                } by {
                    assert(old(self)@[i].parent == after[i].parent);
                    let (p, k) = after[i].parent->0;
                    assert(after[p as int].children == old(self)@[p as int].children);
                }
            }
            if acyclic(old(self)@) {
                let rank = some_rank(old(self)@);
                assert forall|i: int| 0 <= i < after.len() && (#[trigger] after[i]).parent is Some implies {
                    let p = after[i].parent_index();
                    p < after.len() && rank[p] < rank[i]
                } by {
                    assert(old(self)@[i].parent == after[i].parent);
                }
                assert(ranked(after, rank));
            }
        }
        self.nodes[id].set_value(value);
        assert(self@ =~= old(self)@.update(
            id as int,
            NodeView { value: Some(value), ..old(self)@[id as int] },
        ));
    }

    /// The number of children of node `id`.
    pub fn len_children(&self, id: usize) -> (r: usize)
        requires
            id < self@.len(),
        ensures
            r == self@[id as int].children.len(),
    {
        self.nodes[id].len_children()
    }

    /// The index of the child at place `k` of node `id`.
    pub fn child(&self, id: usize, k: usize) -> (r: usize)
        requires
            id < self@.len(),
            k < self@[id as int].children.len(),
        ensures
            r == self@[id as int].children[k as int],
    {
        self.nodes[id].children()[k]
    }

    /// The parent of node `id` and the place of the node among its
    /// children.
    pub fn parent(&self, id: usize) -> (r: Option<(usize, usize)>)
        requires
            id < self@.len(),
        ensures
            r == self@[id as int].parent,
    {
        self.nodes[id].parent()
    }

    /// Records `parent` as the parent of `child`, at place `index`. The
    /// children of `parent` are left as they are.
    pub fn set_parent(&mut self, child: usize, parent: usize, index: usize)
        requires
            child < old(self)@.len(),
        ensures
            final(self)@ == old(self)@.update(
                child as int,
                NodeView { parent: Some((parent, index)), ..old(self)@[child as int] },
            ),
            parent < old(self)@.len() && can_adopt(old(self)@, parent as int, child as int)
                ==> acyclic(final(self)@),
    {
        proof {
            if parent < old(self)@.len() && can_adopt(old(self)@, parent as int, child as int) {
                lemma_acyclic_adopt(old(self)@, parent as int, child as int, index);
            }
        }
        self.nodes[child].set_parent(parent, index);
        assert(self@ =~= old(self)@.update(
            child as int,
            NodeView { parent: Some((parent, index)), ..old(self)@[child as int] },
        ));
    }

    /// Appends `child` to the children of `parent` and makes `parent` its
    /// parent.
    pub fn add_child(&mut self, parent: usize, child: usize)
        requires
            parent < old(self)@.len(),
            child < old(self)@.len(),
        ensures
            final(self)@ == with_child(old(self)@, parent as int, child as int),
            linked(old(self)@) ==> linked(final(self)@),
            can_adopt(old(self)@, parent as int, child as int) ==> acyclic(final(self)@),
    {
        proof {
            if can_adopt(old(self)@, parent as int, child as int) {
                self.lemma_sized();
                let index = old(self)@[parent as int].children.len() as usize;
                lemma_acyclic_adopt(old(self)@, parent as int, child as int, index);
                let moved = old(self)@.update(
                    child as int,
                    NodeView { parent: Some((parent, index)), ..old(self)@[child as int] },
                );
                lemma_acyclic_children(
                    moved,
                    parent as int,
                    moved[parent as int].children.push(child),
                );
            }
        }
        proof {
            self.lemma_sized();
        }
        let index = self.len_children(parent);
        self.set_parent(child, parent, index);
        assert(self.nodes@.len() == self@.len());
        self.nodes[parent].children.push(child);
        assert(self@ =~= with_child(old(self)@, parent as int, child as int));
        proof {
            if linked(old(self)@) {
                self.lemma_sized();
                lemma_linked_with_child(old(self)@, parent as int, child as int);
            }
        }
    }

    /// Puts `child` at place `index` among the children of `parent` and
    /// makes `parent` its parent. The node that stood there keeps whatever
    /// parent it names.
    pub fn replace_child(&mut self, parent: usize, index: usize, child: usize)
        requires
            parent < old(self)@.len(),
            child < old(self)@.len(),
            index < old(self)@[parent as int].children.len(),
        ensures
            final(self)@ == with_child_at(
                old(self)@,
                parent as int,
                index as int,
                child as int,
            ),
            linked(old(self)@) && released(old(self)@, parent as int, index as int, child as int)
                ==> linked(final(self)@),
            can_adopt(old(self)@, parent as int, child as int) ==> acyclic(final(self)@),
    {
        proof {
            if can_adopt(old(self)@, parent as int, child as int) {
                lemma_acyclic_adopt(old(self)@, parent as int, child as int, index);
                let moved = old(self)@.update(
                    child as int,
                    NodeView { parent: Some((parent, index)), ..old(self)@[child as int] },
                );
                lemma_acyclic_children(
                    moved,
                    parent as int,
                    moved[parent as int].children.update(index as int, child),
                );
            }
        }
        proof {
            self.lemma_sized();
            if linked(old(self)@) && released(
                old(self)@,
                parent as int,
                index as int,
                child as int,
            ) {
                lemma_linked_with_child_at(old(self)@, parent as int, index as int, child as int);
            }
        }
        self.set_parent(child, parent, index);
        assert(self.nodes@.len() == self@.len());
        assert(self.nodes@[parent as int]@ == self@[parent as int]);
        self.nodes[parent].children[index] = child;
        assert(self@ =~= with_child_at(
            old(self)@,
            parent as int,
            index as int,
            child as int,
        ));
    }

    /// The root above node `id`: the node reached by following parents
    /// until none remains.
    pub fn root(&self, id: usize) -> (r: usize)
        requires
            id < self@.len(),
            acyclic(self@),
        ensures
            r < self@.len(),
            r == spec_root(self@, id as int),
            self@[r as int].parent is None,
    {
        let mut node = id;
        loop
            invariant
                node < self@.len(),
                acyclic(self@),
                spec_root(self@, node as int) == spec_root(self@, id as int),
            ensures
                node < self@.len(),
                self@[node as int].parent is None,
                node == spec_root(self@, id as int),
            decreases some_rank(self@)[node as int],
        {
            match self.parent(node) {
                Some((parent, _)) => {
                    node = parent;
                },
                None => {
                    break ;
                },
            }
        }
        node
    }
}

/// Whether the place `index` among the children of `parent` is free to be
/// taken by `child`: the node that stands there is `child` itself, or no
/// longer names that place as its own.
pub open spec fn released<T>(nodes: Seq<NodeView<T>>, parent: int, index: int, child: int) -> bool {
    let there = nodes[parent].children[index] as int;
    there == child || (0 <= there < nodes.len() ==> nodes[there].parent != Some(
        (parent as usize, index as usize),
    ))
}

/// Appending a child keeps every back-reference right.
pub proof fn lemma_linked_with_child<T>(nodes: Seq<NodeView<T>>, parent: int, child: int)
    requires
        linked(nodes),
        0 <= parent < nodes.len(),
        0 <= child < nodes.len(),
        sized(nodes),
        sized(with_child(nodes, parent, child)),
    ensures
        linked(with_child(nodes, parent, child)),
{
    let after = with_child(nodes, parent, child);
    let index = nodes[parent].children.len() as int;
    assert(after[parent].children =~= nodes[parent].children.push(child as usize));
    assert forall|i: int| 0 <= i < after.len() && (#[trigger] after[i]).parent is Some implies {
        let (p, k) = after[i].parent->0;
        &&& p < after.len()
        &&& k < after[p as int].children.len()
        &&& after[p as int].children[k as int] == i
    } by {
        if i == child {
            assert(after[i].parent == Some((parent as usize, index as usize)));
            assert(after[parent].children[index] == child);
        } else {
            assert(after[i].parent == nodes[i].parent);
            assert(nodes[i].parent is Some);
            let (p, k) = nodes[i].parent->0;
            assert(p < nodes.len() && k < nodes[p as int].children.len());
            if p == parent {
                assert(after[parent].children[k as int] == nodes[parent].children[k as int]);
            } else {
                assert(after[p as int].children == nodes[p as int].children);
            }
        }
    }
}

/// Putting a child at a place that was released keeps every
/// back-reference right.
pub proof fn lemma_linked_with_child_at<T>(
    nodes: Seq<NodeView<T>>,
    parent: int,
    index: int,
    child: int,
)
    requires
        linked(nodes),
        0 <= parent < nodes.len(),
        0 <= child < nodes.len(),
        0 <= index < nodes[parent].children.len(),
        sized(nodes),
        released(nodes, parent, index, child),
    ensures
        linked(with_child_at(nodes, parent, index, child)),
{
    let after = with_child_at(nodes, parent, index, child);
    assert(after[parent].children =~= nodes[parent].children.update(index, child as usize));
    assert forall|i: int| 0 <= i < after.len() && (#[trigger] after[i]).parent is Some implies {
        let (p, k) = after[i].parent->0;
        &&& p < after.len()
        &&& k < after[p as int].children.len()
        &&& after[p as int].children[k as int] == i
    } by {
        if i == child {
            assert(after[i].parent == Some((parent as usize, index as usize)));
            assert(after[parent].children[index] == child);
        } else {
            assert(after[i].parent == nodes[i].parent);
            assert(nodes[i].parent is Some);
            let (p, k) = nodes[i].parent->0;
            assert(p < nodes.len() && k < nodes[p as int].children.len());
            assert(nodes[p as int].children[k as int] == i);
            if p == parent {
                if k == index {
                    assert(nodes[parent].children[index] == i);
                }
                assert(after[parent].children[k as int] == nodes[parent].children[k as int]);
            } else {
                assert(after[p as int].children == nodes[p as int].children);
            }
        }
    }
}

/// A node that takes a parent below which it can stand closes no circle.
pub proof fn lemma_acyclic_adopt<T>(nodes: Seq<NodeView<T>>, parent: int, child: int, index: usize)
    requires
        0 <= parent < nodes.len(),
        0 <= child < nodes.len(),
        parent <= usize::MAX,
        can_adopt(nodes, parent, child),
    ensures
        acyclic(
            nodes.update(
                child,
                NodeView { parent: Some((parent as usize, index)), ..nodes[child] },
            ),
        ),
{
    let rank = choose|rank: Seq<nat>| ranked(nodes, rank) && #[trigger] rank[parent] < rank[child];
    let after = nodes.update(
        child,
        NodeView { parent: Some((parent as usize, index)), ..nodes[child] },
    );
    assert forall|i: int| 0 <= i < after.len() && (#[trigger] after[i]).parent is Some implies {
        let p = after[i].parent_index();
        p < after.len() && rank[p] < rank[i]
    } by {
        if i != child {
            assert(after[i].parent == nodes[i].parent);
            assert(nodes[i].parent is Some);
        }
    }
    assert(ranked(after, rank));
}

/// What the children of a node are has no part in whether parents lead to
/// a root.
pub proof fn lemma_acyclic_children<T>(nodes: Seq<NodeView<T>>, id: int, children: Seq<usize>)
    requires
        0 <= id < nodes.len(),
        acyclic(nodes),
    ensures
        acyclic(nodes.update(id, NodeView { children, ..nodes[id] })),
{
    let rank = some_rank(nodes);
    let after = nodes.update(id, NodeView { children, ..nodes[id] });
    assert forall|i: int| 0 <= i < after.len() && (#[trigger] after[i]).parent is Some implies {
        let p = after[i].parent_index();
        p < after.len() && rank[p] < rank[i]
    } by {
        assert(after[i].parent == nodes[i].parent);
        assert(nodes[i].parent is Some);
    }
    assert(ranked(after, rank));
}

/// A node that no node names as its parent can take any other node as its
/// parent.
pub proof fn lemma_adopt_leaf<T>(nodes: Seq<NodeView<T>>, parent: int, child: int)
    requires
        acyclic(nodes),
        0 <= parent < nodes.len(),
        0 <= child < nodes.len(),
        parent != child,
        forall|i: int| 0 <= i < nodes.len() ==> (#[trigger] nodes[i]).parent_index() != child,
    ensures
        can_adopt(nodes, parent, child),
{
    let rank = some_rank(nodes);
    let raised: nat = if rank[child] > rank[parent] {
        rank[child]
    } else {
        rank[parent] + 1
    };
    let next = rank.update(child, raised);
    assert forall|i: int| 0 <= i < nodes.len() && (#[trigger] nodes[i]).parent is Some implies {
        let p = nodes[i].parent_index();
        p < nodes.len() && next[p] < next[i]
    } by {
        let p = nodes[i].parent_index();
        assert(p != child);
        assert(rank[p] < rank[i]);
    }
    assert(ranked(nodes, next) && next[parent] < next[child]);
}

/// A node without a parent that no node names as its parent can become
/// the parent of any other node.
pub proof fn lemma_adopt_by_new<T>(nodes: Seq<NodeView<T>>, parent: int, child: int)
    requires
        acyclic(nodes),
        0 <= parent < nodes.len(),
        0 <= child < nodes.len(),
        parent != child,
        nodes[parent].parent is None,
        forall|i: int| 0 <= i < nodes.len() ==> (#[trigger] nodes[i]).parent_index() != parent,
    ensures
        can_adopt(nodes, parent, child),
{
    let rank = some_rank(nodes);
    let next = Seq::new(
        nodes.len(),
        |i: int|
            if i == parent {
                0nat
            } else {
                rank[i] + 1
            },
    );
    assert forall|i: int| 0 <= i < nodes.len() && (#[trigger] nodes[i]).parent is Some implies {
        let p = nodes[i].parent_index();
        p < nodes.len() && next[p] < next[i]
    } by {
        let p = nodes[i].parent_index();
        assert(p != parent);
        assert(i != parent);
        assert(rank[p] < rank[i]);
    }
    assert(ranked(nodes, next) && next[parent] < next[child]);
}

/// Adding a node that nobody names, with any parent already there or none,
/// keeps the forest acyclic.
pub proof fn lemma_acyclic_push<T>(nodes: Seq<NodeView<T>>, node: NodeView<T>)
    requires
        acyclic(nodes),
        node.parent is Some ==> node.parent_index() < nodes.len(),
    ensures
        acyclic(nodes.push(node)),
{
    let rank = some_rank(nodes);
    let r: nat = if node.parent is Some {
        rank[node.parent_index()] + 1
    } else {
        0
    };
    assert(ranked(nodes.push(node), rank.push(r)));
}

} // verus!
